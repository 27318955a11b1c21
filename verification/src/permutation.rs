use crate::error::GadgetError;
use crate::exponent::get_alpha;
use crate::arith::pow_mod;
use crate::field::{modulus, FieldElement};
use crate::num::{
    all_allocated_in, all_present, lemma_all_allocated_kept, lemma_gate_extends,
    lemma_satisfied_all_present, lemma_sum_keeps_satisfied, numbers, sum_of, AllocatedNum,
};
use crate::r1cs::{residues, R1cs, Variable};
use crate::sbox::{
    generate_powers, generate_roots, lemma_met_in_prefix, lemma_proves_power_kept,
    lemma_proves_root_kept, met_between, power_gates, power_of, proves_power, proves_root,
    root_gates, root_of,
};
use vstd::arithmetic::div_mod::{
    lemma_fundamental_div_mod, lemma_mod_multiples_vanish, lemma_small_mod,
};
use vstd::prelude::*;

verus! {

/// The number of rounds of the permutation.
pub const ROUNDS: usize = 16;

/// The number of field elements in the state of the permutation.
pub const WIDTH: usize = 16;

/// The state after a key is added: the sums, entry by entry.
pub open spec fn add_key_values(state: Seq<Option<int>>, key: Seq<Option<int>>) -> Seq<
    Option<int>,
> {
    Seq::new(state.len(), |i: int| sum_of(state[i], key[i]))
}

/// The state after the forward S-box layer: each entry raised to `e`.
pub open spec fn power_values(state: Seq<Option<int>>, e: nat) -> Seq<Option<int>> {
    Seq::new(state.len(), |i: int| power_of(state[i], e))
}

/// The state after the inverse S-box layer: the root of each entry.
pub open spec fn root_values(state: Seq<Option<int>>, e: nat) -> Seq<Option<int>> {
    Seq::new(state.len(), |i: int| root_of(state[i], e))
}

/// The state after the linear mixing layer. The mixing matrix is not part of
/// this library: the layer is the identity, and a permutation built with it
/// is not cryptographically sound.
pub open spec fn mix_values(state: Seq<Option<int>>) -> Seq<Option<int>> {
    state
}

/// Every entry has a value, and its root raised to `e` gives it back.
pub open spec fn roots_return(state: Seq<Option<int>>, e: nat) -> bool {
    forall|i: int|
        0 <= i < state.len() ==> (#[trigger] state[i]).is_some() && power_of(
            root_of(state[i], e),
            e,
        ) == state[i]
}

/// The state in the middle of a round, before the inverse S-box layer.
pub open spec fn half_round_values(state: Seq<Option<int>>, key: Seq<Option<int>>, e: nat) -> Seq<
    Option<int>,
> {
    add_key_values(mix_values(power_values(state, e)), key)
}

/// The state after one round with the keys `k1` and `k2`.
pub open spec fn round_values(
    state: Seq<Option<int>>,
    k1: Seq<Option<int>>,
    k2: Seq<Option<int>>,
    e: nat,
) -> Seq<Option<int>> {
    add_key_values(mix_values(root_values(half_round_values(state, k1, e), e)), k2)
}

/// The state after the first key is added and `r` rounds have run; round `r`
/// uses the keys at positions `2r - 1` and `2r`.
pub open spec fn rescue_values(
    input: Seq<Option<int>>,
    keys: Seq<Seq<Option<int>>>,
    e: nat,
    r: nat,
) -> Seq<Option<int>>
    decreases r,
{
    if r == 0 {
        add_key_values(input, keys[0])
    } else {
        round_values(
            rescue_values(input, keys, e, (r - 1) as nat),
            keys[2 * r - 1],
            keys[2 * r as int],
            e,
        )
    }
}

/// The gates of the first `r` rounds can all be met: every value that enters
/// them is present, and in each round every root raised to `e` gives back the
/// entry it was taken of.
pub open spec fn rescue_consistent(
    input: Seq<Option<int>>,
    keys: Seq<Seq<Option<int>>>,
    e: nat,
    r: nat,
) -> bool
    decreases r,
{
    if r == 0 {
        all_present(input) && all_present(keys[0])
    } else {
        let state = rescue_values(input, keys, e, (r - 1) as nat);
        &&& rescue_consistent(input, keys, e, (r - 1) as nat)
        &&& all_present(keys[2 * r - 1])
        &&& all_present(keys[2 * r as int])
        &&& roots_return(half_round_values(state, keys[2 * r - 1], e), e)
    }
}

/// The number of gates of one round for the exponent `e`.
pub open spec fn round_gates(e: nat) -> int {
    WIDTH * power_gates(e) + WIDTH + WIDTH * root_gates(e) + WIDTH
}

/// The values of each key of a schedule.
pub open spec fn schedule_numbers(keys: Seq<Vec<AllocatedNum>>) -> Seq<Seq<Option<int>>> {
    Seq::new(keys.len(), |k: int| numbers(keys[k]@))
}

/// What a layer leaves behind: `after` is `before` with `gates` more
/// constraints and as many more variables, and `out` has the width of the
/// state and belongs to it.
pub open spec fn layer_built(before: R1cs, after: R1cs, out: Seq<AllocatedNum>, gates: int) -> bool {
    &&& after.wf()
    &&& after.extends(&before)
    &&& out.len() == WIDTH
    &&& all_allocated_in(out, after)
    &&& after.values().len() == before.values().len() + gates
    &&& after.constraints().len() == before.constraints().len() + gates
}

/// The constraints of `cs` from position `from` on prove that the variable
/// `out` is the sum of the variables `a` and `b`: the relation holds in every
/// assignment of residues that gives the constant its value and meets them.
pub open spec fn proves_sum(cs: R1cs, from: int, a: Variable, b: Variable, out: Variable) -> bool {
    forall|w: Seq<int>|
        residues(w, cs.values().len()) && w[0] == 1 && #[trigger] met_between(
            cs,
            from,
            cs.constraints().len() as int,
            w,
        ) ==> w[out.0 as int] == (w[a.0 as int] + w[b.0 as int]) % modulus()
}

/// The constraints prove, entry by entry, that `out` is `state` raised to
/// `e`.
pub open spec fn layer_proves_power(
    cs: R1cs,
    from: int,
    state: Seq<AllocatedNum>,
    out: Seq<AllocatedNum>,
    e: nat,
) -> bool {
    forall|i: int|
        0 <= i < state.len() ==> proves_power(
            cs,
            from,
            state[i].variable(),
            (#[trigger] out[i]).variable(),
            e,
        )
}

/// The constraints prove, entry by entry, that `out` raised to `e` is
/// `state`.
pub open spec fn layer_proves_root(
    cs: R1cs,
    from: int,
    state: Seq<AllocatedNum>,
    out: Seq<AllocatedNum>,
    e: nat,
) -> bool {
    forall|i: int|
        0 <= i < state.len() ==> proves_root(
            cs,
            from,
            state[i].variable(),
            (#[trigger] out[i]).variable(),
            e,
        )
}

/// The constraints prove, entry by entry, that `out` is the sum of `state`
/// and `key`.
pub open spec fn layer_proves_sum(
    cs: R1cs,
    from: int,
    state: Seq<AllocatedNum>,
    key: Seq<AllocatedNum>,
    out: Seq<AllocatedNum>,
) -> bool {
    forall|i: int|
        0 <= i < state.len() ==> proves_sum(
            cs,
            from,
            state[i].variable(),
            key[i].variable(),
            (#[trigger] out[i]).variable(),
        )
}

/// What a layer proves, it proves from every earlier position on, and in
/// every system that extends this one.
proof fn lemma_layer_power_kept(
    cs: R1cs,
    later: R1cs,
    from: int,
    earlier: int,
    state: Seq<AllocatedNum>,
    out: Seq<AllocatedNum>,
    e: nat,
)
    requires
        0 <= earlier <= from,
        later.extends(&cs),
        layer_proves_power(cs, from, state, out, e),
    ensures
        layer_proves_power(later, earlier, state, out, e),
{
    assert forall|i: int| 0 <= i < state.len() implies proves_power(
        later,
        earlier,
        state[i].variable(),
        (#[trigger] out[i]).variable(),
        e,
    ) by {
        lemma_proves_power_kept(
            cs,
            later,
            from,
            earlier,
            state[i].variable(),
            out[i].variable(),
            e,
        );
    }
}

/// What a layer proves, it proves from every earlier position on, and in
/// every system that extends this one.
proof fn lemma_layer_root_kept(
    cs: R1cs,
    later: R1cs,
    from: int,
    earlier: int,
    state: Seq<AllocatedNum>,
    out: Seq<AllocatedNum>,
    e: nat,
)
    requires
        0 <= earlier <= from,
        later.extends(&cs),
        layer_proves_root(cs, from, state, out, e),
    ensures
        layer_proves_root(later, earlier, state, out, e),
{
    assert forall|i: int| 0 <= i < state.len() implies proves_root(
        later,
        earlier,
        state[i].variable(),
        (#[trigger] out[i]).variable(),
        e,
    ) by {
        lemma_proves_root_kept(
            cs,
            later,
            from,
            earlier,
            state[i].variable(),
            out[i].variable(),
            e,
        );
    }
}

/// What a layer proves, it proves from every earlier position on, and in
/// every system that extends this one.
proof fn lemma_layer_sum_kept(
    cs: R1cs,
    later: R1cs,
    from: int,
    earlier: int,
    state: Seq<AllocatedNum>,
    key: Seq<AllocatedNum>,
    out: Seq<AllocatedNum>,
)
    requires
        0 <= earlier <= from,
        later.extends(&cs),
        layer_proves_sum(cs, from, state, key, out),
    ensures
        layer_proves_sum(later, earlier, state, key, out),
{
    assert forall|i: int| 0 <= i < state.len() implies proves_sum(
        later,
        earlier,
        state[i].variable(),
        key[i].variable(),
        (#[trigger] out[i]).variable(),
    ) by {
        let (a, b, o) = (state[i].variable(), key[i].variable(), out[i].variable());
        assert(proves_sum(cs, from, a, b, o));
        assert forall|w: Seq<int>|
            residues(w, later.values().len()) && w[0] == 1 && #[trigger] met_between(
                later,
                earlier,
                later.constraints().len() as int,
                w,
            ) implies w[o.0 as int] == (w[a.0 as int] + w[b.0 as int]) % modulus() by {
            lemma_met_in_prefix(cs, later, from, earlier, w);
        }
    }
}

/// `after` has the variables and the constraints of `before`, and no more.
pub open spec fn unchanged(before: R1cs, after: R1cs) -> bool {
    after.values() == before.values() && after.constraints() == before.constraints()
}

/// What `add_key` leaves behind: one sum gate and one new variable for each
/// entry, in order; the outputs carry the sums of the values; the gates are
/// met exactly when every value is present; and they prove that the outputs
/// are the sums.
pub open spec fn key_added(
    before: R1cs,
    after: R1cs,
    input: Seq<AllocatedNum>,
    key: Seq<AllocatedNum>,
    out: Seq<AllocatedNum>,
) -> bool {
    &&& layer_built(before, after, out, WIDTH as int)
    &&& forall|i: int| 0 <= i < WIDTH ==> (#[trigger] out[i]).variable().0 == before.values().len() + i
    &&& numbers(out) == add_key_values(numbers(input), numbers(key))
    &&& after.satisfied() == (before.satisfied() && all_present(numbers(input)) && all_present(
        numbers(key),
    ))
    &&& forall|i: int|
        0 <= i < WIDTH ==> (#[trigger] after.constraints()[before.constraints().len() + i]).is_sum_gate(
            input[i].variable(),
            key[i].variable(),
            out[i].variable(),
        )
    &&& layer_proves_sum(after, before.constraints().len() as int, input, key, out)
}

/// Adds a round key to the state, entry by entry. A state or a key that does
/// not have the permutation's width is refused and leaves the system as it
/// was.
pub fn add_key(cs: &mut R1cs, input: Vec<AllocatedNum>, key: &Vec<AllocatedNum>) -> (r: Result<
    Vec<AllocatedNum>,
    GadgetError,
>)
    requires
        old(cs).wf(),
        all_allocated_in(input@, *old(cs)),
        all_allocated_in(key@, *old(cs)),
    ensures
        input@.len() != WIDTH ==> r == Err::<Vec<AllocatedNum>, GadgetError>(
            GadgetError::InvalidStateLength,
        ) && unchanged(*old(cs), *final(cs)),
        input@.len() == WIDTH && key@.len() != WIDTH ==> r == Err::<
            Vec<AllocatedNum>,
            GadgetError,
        >(GadgetError::InvalidKeyLength) && unchanged(*old(cs), *final(cs)),
        input@.len() == WIDTH && key@.len() == WIDTH ==> r.is_ok() && key_added(
            *old(cs),
            *final(cs),
            input@,
            key@,
            r.unwrap()@,
        ),
{
    if input.len() != WIDTH {
        return Err(GadgetError::InvalidStateLength);
    }
    if key.len() != WIDTH {
        return Err(GadgetError::InvalidKeyLength);
    }
    let ghost before = *cs;
    let ghost from = cs.constraints().len() as int;
    let mut res: Vec<AllocatedNum> = Vec::with_capacity(WIDTH);
    proof {
        assert(cs.values().take(before.values().len() as int) =~= before.values());
        assert(cs.constraints().take(from) =~= before.constraints());
    }
    let mut i: usize = 0;
    while i < WIDTH
        invariant
            0 <= i <= WIDTH,
            input@.len() == WIDTH,
            key@.len() == WIDTH,
            res@.len() == i,
            before.wf(),
            cs.wf(),
            cs.extends(&before),
            from == before.constraints().len(),
            all_allocated_in(input@, *cs),
            all_allocated_in(key@, *cs),
            all_allocated_in(res@, *cs),
            cs.values().len() == before.values().len() + i,
            cs.constraints().len() == from + i,
            forall|j: int| 0 <= j < i ==> (#[trigger] res@[j]).number() == sum_of(
                input@[j].number(),
                key@[j].number(),
            ),
            forall|j: int|
                0 <= j < i ==> (#[trigger] res@[j]).variable().0 == before.values().len() + j,
            cs.satisfied() == (before.satisfied() && forall|j: int|
                0 <= j < i ==> (#[trigger] input@[j]).number().is_some()
                    && key@[j].number().is_some()),
            forall|j: int|
                0 <= j < i ==> (#[trigger] cs.constraints()[from + j]).is_sum_gate(
                    input@[j].variable(),
                    key@[j].variable(),
                    res@[j].variable(),
                ),
        decreases WIDTH - i,
    {
        let ghost step = *cs;
        let ghost done = res@;
        assert(input@[i as int].allocated_in(step));
        assert(key@[i as int].allocated_in(step));
        let sum = input[i].add(cs, &key[i]);
        proof {
            lemma_sum_keeps_satisfied(step, *cs, input@[i as int], key@[i as int], sum);
            cs.lemma_extends_by_gate(&step, &before, sum.value());
            lemma_gate_extends(step, *cs, sum);
            lemma_all_allocated_kept(step, *cs, input@);
            lemma_all_allocated_kept(step, *cs, key@);
            lemma_all_allocated_kept(step, *cs, done);
        }
        res.push(sum);
        proof {
            assert forall|j: int| 0 <= j < i + 1 implies (#[trigger] res@[j]).allocated_in(
                *cs,
            ) by {
                if j < i {
                    assert(res@[j] == done[j]);
                }
            }
            assert forall|j: int| 0 <= j < i + 1 implies (
            #[trigger] cs.constraints()[from + j]).is_sum_gate(
                input@[j].variable(),
                key@[j].variable(),
                res@[j].variable(),
            ) by {
                if j < i {
                    assert(cs.constraints()[from + j] == step.constraints()[from + j]);
                    assert(res@[j] == done[j]);
                }
            }
        }
        i = i + 1;
    }
    proof {
        assert forall|j: int| 0 <= j < WIDTH implies proves_sum(
            *cs,
            from,
            input@[j].variable(),
            key@[j].variable(),
            (#[trigger] res@[j]).variable(),
        ) by {
            let (a, b, o) = (input@[j].variable(), key@[j].variable(), res@[j].variable());
            assert(input@[j].allocated_in(*cs));
            assert(key@[j].allocated_in(*cs));
            assert(res@[j].allocated_in(*cs));
            assert forall|w: Seq<int>|
                residues(w, cs.values().len()) && w[0] == 1 && #[trigger] met_between(
                    *cs,
                    from,
                    cs.constraints().len() as int,
                    w,
                ) implies w[o.0 as int] == (w[a.0 as int] + w[b.0 as int]) % modulus() by {
                assert(cs.constraints()[from + j].holds(w));
                cs.constraints()[from + j].lemma_sum_gate(a, b, o, w);
            }
        }
        assert(numbers(res@) =~= add_key_values(numbers(input@), numbers(key@)));
        let present = forall|j: int|
            0 <= j < WIDTH ==> (#[trigger] input@[j]).number().is_some()
                && key@[j].number().is_some();
        if present {
            assert forall|j: int| 0 <= j < WIDTH implies (#[trigger] numbers(key@)[j]).is_some() by {
                assert(input@[j].number().is_some() && key@[j].number().is_some());
            }
            assert forall|j: int| 0 <= j < WIDTH implies (
            #[trigger] numbers(input@)[j]).is_some() by {
                assert(input@[j].number().is_some());
            }
        }
        if all_present(numbers(input@)) && all_present(numbers(key@)) {
            assert forall|j: int| 0 <= j < WIDTH implies (#[trigger] input@[j]).number().is_some()
                && key@[j].number().is_some() by {
                assert(numbers(input@)[j].is_some());
                assert(numbers(key@)[j].is_some());
            }
        }
    }
    Ok(res)
}

/// The linear mixing layer. The mixing matrix is not part of this library:
/// the layer hands the state on as it is and enforces nothing, and a
/// permutation built with it is not cryptographically sound. A state that
/// does not have the permutation's width is refused.
pub fn generate_mds(cs: &mut R1cs, input: Vec<AllocatedNum>) -> (r: Result<
    Vec<AllocatedNum>,
    GadgetError,
>)
    ensures
        *final(cs) == *old(cs),
        input@.len() != WIDTH ==> r == Err::<Vec<AllocatedNum>, GadgetError>(
            GadgetError::InvalidStateLength,
        ),
        input@.len() == WIDTH ==> r.is_ok() && r.unwrap()@ == input@ && numbers(r.unwrap()@)
            == mix_values(numbers(input@)),
{
    if input.len() != WIDTH {
        return Err(GadgetError::InvalidStateLength);
    }
    Ok(input)
}

/// The forward S-box layer: each entry of the state raised to `alpha`.
fn power_layer(cs: &mut R1cs, state: &Vec<AllocatedNum>, alpha: &FieldElement) -> (r: Result<
    Vec<AllocatedNum>,
    GadgetError,
>)
    requires
        old(cs).wf(),
        state@.len() == WIDTH,
        all_allocated_in(state@, *old(cs)),
        alpha.wf(),
        alpha@ > 1,
    ensures
        r.is_ok(),
        layer_built(*old(cs), *final(cs), r.unwrap()@, WIDTH * power_gates(alpha@ as nat)),
        numbers(r.unwrap()@) == power_values(numbers(state@), alpha@ as nat),
        final(cs).satisfied() == (old(cs).satisfied() && all_present(numbers(state@))),
        layer_proves_power(
            *final(cs),
            old(cs).constraints().len() as int,
            state@,
            r.unwrap()@,
            alpha@ as nat,
        ),
{
    let ghost before = *cs;
    let ghost e = alpha@ as nat;
    let ghost g = power_gates(e);
    let mut res: Vec<AllocatedNum> = Vec::with_capacity(WIDTH);
    proof {
        assert(cs.values().take(before.values().len() as int) =~= before.values());
        assert(cs.constraints().take(before.constraints().len() as int) =~= before.constraints());
    }
    let mut i: usize = 0;
    while i < WIDTH
        invariant
            0 <= i <= WIDTH,
            state@.len() == WIDTH,
            res@.len() == i,
            alpha.wf(),
            alpha@ > 1,
            e == alpha@ as nat,
            g == power_gates(e),
            before.wf(),
            cs.wf(),
            cs.extends(&before),
            all_allocated_in(state@, *cs),
            all_allocated_in(res@, *cs),
            cs.values().len() == before.values().len() + i * g,
            cs.constraints().len() == before.constraints().len() + i * g,
            forall|j: int|
                0 <= j < i ==> (#[trigger] res@[j]).number() == power_of(state@[j].number(), e),
            forall|j: int|
                0 <= j < i ==> proves_power(
                    *cs,
                    before.constraints().len() as int,
                    state@[j].variable(),
                    (#[trigger] res@[j]).variable(),
                    e,
                ),
            cs.satisfied() == (before.satisfied() && forall|j: int|
                0 <= j < i ==> (#[trigger] state@[j]).number().is_some()),
        decreases WIDTH - i,
    {
        let ghost step = *cs;
        let ghost done = res@;
        let ghost from = before.constraints().len() as int;
        assert(state@[i as int].allocated_in(step));
        let y = match generate_powers(cs, &state[i], alpha) {
            Ok(y) => y,
            Err(error) => {
                return Err(error);
            },
        };
        proof {
            cs.lemma_extends_transitive(&step, &before);
            lemma_all_allocated_kept(step, *cs, state@);
            lemma_all_allocated_kept(step, *cs, done);
            assert((i + 1) * g == i * g + g) by (nonlinear_arith);
            assert(0 <= i * g) by (nonlinear_arith)
                requires
                    0 <= i,
                    0 <= g,
            ;
            assert(cs.values().take(cs.values().len() as int) =~= cs.values());
            assert(cs.constraints().take(cs.constraints().len() as int) =~= cs.constraints());
            lemma_proves_power_kept(
                *cs,
                *cs,
                step.constraints().len() as int,
                from,
                state@[i as int].variable(),
                y.variable(),
                e,
            );
            assert forall|j: int| 0 <= j < i implies proves_power(
                *cs,
                from,
                state@[j].variable(),
                (#[trigger] done[j]).variable(),
                e,
            ) by {
                lemma_proves_power_kept(
                    step,
                    *cs,
                    from,
                    from,
                    state@[j].variable(),
                    done[j].variable(),
                    e,
                );
            }
        }
        res.push(y);
        proof {
            assert forall|j: int| 0 <= j < i + 1 implies proves_power(
                *cs,
                from,
                state@[j].variable(),
                (#[trigger] res@[j]).variable(),
                e,
            ) by {
                if j < i {
                    assert(res@[j] == done[j]);
                }
            }
            assert forall|j: int| 0 <= j < i + 1 implies (#[trigger] res@[j]).allocated_in(
                *cs,
            ) by {
                if j < i {
                    assert(res@[j] == done[j]);
                }
            }
        }
        i = i + 1;
    }
    proof {
        assert(numbers(res@) =~= power_values(numbers(state@), e));
        if all_present(numbers(state@)) {
            assert forall|j: int| 0 <= j < WIDTH implies (
            #[trigger] state@[j]).number().is_some() by {
                assert(numbers(state@)[j].is_some());
            }
        }
    }
    Ok(res)
}

/// The inverse S-box layer: the root of each entry of the state for the
/// exponent `alpha`.
fn root_layer(cs: &mut R1cs, state: &Vec<AllocatedNum>, alpha: &FieldElement) -> (r: Result<
    Vec<AllocatedNum>,
    GadgetError,
>)
    requires
        old(cs).wf(),
        state@.len() == WIDTH,
        all_allocated_in(state@, *old(cs)),
        alpha.wf(),
        alpha@ > 1,
    ensures
        r.is_ok(),
        layer_built(*old(cs), *final(cs), r.unwrap()@, WIDTH * root_gates(alpha@ as nat)),
        numbers(r.unwrap()@) == root_values(numbers(state@), alpha@ as nat),
        final(cs).satisfied() == (old(cs).satisfied() && roots_return(
            numbers(state@),
            alpha@ as nat,
        )),
        layer_proves_root(
            *final(cs),
            old(cs).constraints().len() as int,
            state@,
            r.unwrap()@,
            alpha@ as nat,
        ),
{
    let ghost before = *cs;
    let ghost e = alpha@ as nat;
    let ghost g = root_gates(e);
    let mut res: Vec<AllocatedNum> = Vec::with_capacity(WIDTH);
    proof {
        assert(cs.values().take(before.values().len() as int) =~= before.values());
        assert(cs.constraints().take(before.constraints().len() as int) =~= before.constraints());
    }
    let mut i: usize = 0;
    while i < WIDTH
        invariant
            0 <= i <= WIDTH,
            state@.len() == WIDTH,
            res@.len() == i,
            alpha.wf(),
            alpha@ > 1,
            e == alpha@ as nat,
            g == root_gates(e),
            before.wf(),
            cs.wf(),
            cs.extends(&before),
            all_allocated_in(state@, *cs),
            all_allocated_in(res@, *cs),
            cs.values().len() == before.values().len() + i * g,
            cs.constraints().len() == before.constraints().len() + i * g,
            forall|j: int|
                0 <= j < i ==> (#[trigger] res@[j]).number() == root_of(state@[j].number(), e),
            forall|j: int|
                0 <= j < i ==> proves_root(
                    *cs,
                    before.constraints().len() as int,
                    state@[j].variable(),
                    (#[trigger] res@[j]).variable(),
                    e,
                ),
            cs.satisfied() == (before.satisfied() && forall|j: int|
                0 <= j < i ==> (#[trigger] state@[j]).number().is_some() && power_of(
                    root_of(state@[j].number(), e),
                    e,
                ) == state@[j].number()),
        decreases WIDTH - i,
    {
        let ghost step = *cs;
        let ghost done = res@;
        let ghost from = before.constraints().len() as int;
        assert(state@[i as int].allocated_in(step));
        let y = match generate_roots(cs, &state[i], alpha) {
            Ok(y) => y,
            Err(error) => {
                return Err(error);
            },
        };
        proof {
            cs.lemma_extends_transitive(&step, &before);
            lemma_all_allocated_kept(step, *cs, state@);
            lemma_all_allocated_kept(step, *cs, done);
            assert((i + 1) * g == i * g + g) by (nonlinear_arith);
            assert(0 <= i * g) by (nonlinear_arith)
                requires
                    0 <= i,
                    0 <= g,
            ;
            assert(cs.values().take(cs.values().len() as int) =~= cs.values());
            assert(cs.constraints().take(cs.constraints().len() as int) =~= cs.constraints());
            lemma_proves_root_kept(
                *cs,
                *cs,
                step.constraints().len() as int,
                from,
                state@[i as int].variable(),
                y.variable(),
                e,
            );
            assert forall|j: int| 0 <= j < i implies proves_root(
                *cs,
                from,
                state@[j].variable(),
                (#[trigger] done[j]).variable(),
                e,
            ) by {
                lemma_proves_root_kept(
                    step,
                    *cs,
                    from,
                    from,
                    state@[j].variable(),
                    done[j].variable(),
                    e,
                );
            }
        }
        res.push(y);
        proof {
            assert forall|j: int| 0 <= j < i + 1 implies proves_root(
                *cs,
                from,
                state@[j].variable(),
                (#[trigger] res@[j]).variable(),
                e,
            ) by {
                if j < i {
                    assert(res@[j] == done[j]);
                }
            }
            assert forall|j: int| 0 <= j < i + 1 implies (#[trigger] res@[j]).allocated_in(
                *cs,
            ) by {
                if j < i {
                    assert(res@[j] == done[j]);
                }
            }
        }
        i = i + 1;
    }
    proof {
        assert(numbers(res@) =~= root_values(numbers(state@), e));
        let each = forall|j: int|
            0 <= j < WIDTH ==> (#[trigger] state@[j]).number().is_some() && power_of(
                root_of(state@[j].number(), e),
                e,
            ) == state@[j].number();
        if each {
            assert forall|j: int| 0 <= j < WIDTH implies (#[trigger] numbers(state@)[j]).is_some()
                && power_of(root_of(numbers(state@)[j], e), e) == numbers(state@)[j] by {
                assert(state@[j].number().is_some());
            }
        }
        if roots_return(numbers(state@), e) {
            assert forall|j: int| 0 <= j < WIDTH implies (
            #[trigger] state@[j]).number().is_some() && power_of(
                root_of(state@[j].number(), e),
                e,
            ) == state@[j].number() by {
                assert(numbers(state@)[j].is_some());
            }
        }
    }
    Ok(res)
}

/// The values that the assignment `w` gives to a sequence of numbers.
pub open spec fn read(w: Seq<int>, s: Seq<AllocatedNum>) -> Seq<int> {
    Seq::new(s.len(), |i: int| w[s[i].variable().0 as int])
}

/// The values that the assignment `w` gives to each key of a schedule.
pub open spec fn read_schedule(w: Seq<int>, keys: Seq<Vec<AllocatedNum>>) -> Seq<Seq<int>> {
    Seq::new(keys.len(), |k: int| read(w, keys[k]@))
}

/// The values that the assignment `w` gives to each of a sequence of states.
spec fn read_states(w: Seq<int>, states: Seq<Seq<AllocatedNum>>) -> Seq<Seq<int>> {
    Seq::new(states.len(), |r: int| read(w, states[r]))
}

/// The sums of a state and a key in the field, entry by entry.
pub open spec fn key_sums(state: Seq<int>, key: Seq<int>) -> Seq<int> {
    Seq::new(state.len(), |i: int| (state[i] + key[i]) % modulus())
}

/// One round takes the state `prev` to the state `next` under the keys `k1`
/// and `k2`: each entry of `next`, less its entry of `k2`, is a root of the
/// entry of `prev` raised to `e` plus its entry of `k1`.
pub open spec fn round_relates(
    prev: Seq<int>,
    k1: Seq<int>,
    k2: Seq<int>,
    next: Seq<int>,
    e: nat,
) -> bool {
    &&& next.len() == prev.len()
    &&& forall|i: int|
        0 <= i < prev.len() ==> pow_mod(
            (#[trigger] next[i] - k2[i]) % modulus(),
            e,
            modulus(),
        ) == (pow_mod(prev[i], e, modulus()) + k1[i]) % modulus()
}

/// `states` are the states of a run on `input` under `keys`: the first is
/// the input with the first key added, and each of the others comes from the
/// one before it by one round, round `r` with the keys at `2r - 1` and `2r`.
pub open spec fn rescue_chain(
    input: Seq<int>,
    keys: Seq<Seq<int>>,
    states: Seq<Seq<int>>,
    e: nat,
) -> bool {
    &&& states.len() >= 1
    &&& states[0] == key_sums(input, keys[0])
    &&& forall|r: int|
        1 <= r < states.len() ==> round_relates(
            states[r - 1],
            keys[2 * r - 1],
            keys[2 * r],
            #[trigger] states[r],
            e,
        )
}

/// The permutation takes `input` to `out` under `keys`: there is a run of
/// `ROUNDS` rounds that ends in `out`.
pub open spec fn rescue_relates(input: Seq<int>, keys: Seq<Seq<int>>, out: Seq<int>, e: nat) -> bool {
    exists|states: Seq<Seq<int>>|
        #[trigger] rescue_chain(input, keys, states, e) && states.len() == ROUNDS + 1
            && states[ROUNDS as int] == out
}

/// The constraints of `cs` from position `from` on prove that the
/// permutation takes `input` to `out` under `keys`: the relation holds of the
/// values in every assignment of residues that gives the constant its value
/// and meets them.
pub open spec fn proves_rescue(
    cs: R1cs,
    from: int,
    input: Seq<AllocatedNum>,
    keys: Seq<Vec<AllocatedNum>>,
    out: Seq<AllocatedNum>,
    e: nat,
) -> bool {
    forall|w: Seq<int>|
        residues(w, cs.values().len()) && w[0] == 1 && #[trigger] met_between(
            cs,
            from,
            cs.constraints().len() as int,
            w,
        ) ==> rescue_relates(read(w, input), read_schedule(w, keys), read(w, out), e)
}

/// The constraints of `cs` from position `from` on prove that `states` are
/// the states of a run on `input` under `keys`.
spec fn proves_chain(
    cs: R1cs,
    from: int,
    input: Seq<AllocatedNum>,
    keys: Seq<Vec<AllocatedNum>>,
    states: Seq<Seq<AllocatedNum>>,
    e: nat,
) -> bool {
    forall|w: Seq<int>|
        residues(w, cs.values().len()) && w[0] == 1 && #[trigger] met_between(
            cs,
            from,
            cs.constraints().len() as int,
            w,
        ) ==> rescue_chain(read(w, input), read_schedule(w, keys), read_states(w, states), e)
}

/// Taking a key away from a sum in the field gives back the other term.
proof fn lemma_sum_undone(r: int, k: int)
    requires
        0 <= r < modulus(),
        0 <= k < modulus(),
    ensures
        ((r + k) % modulus() - k) % modulus() == r,
{
    let p = modulus();
    lemma_fundamental_div_mod(r + k, p);
    let t = (r + k) / p;
    lemma_mod_multiples_vanish(-t, r, p);
    lemma_small_mod(r as nat, p as nat);
    assert((r + k) % p - k == p * (-t) + r) by (nonlinear_arith)
        requires
            r + k == p * t + (r + k) % p,
    ;
}

/// The first key addition starts a run.
proof fn lemma_chain_starts(
    before: R1cs,
    cs: R1cs,
    input: Seq<AllocatedNum>,
    keys: Seq<Vec<AllocatedNum>>,
    state: Seq<AllocatedNum>,
    e: nat,
)
    requires
        keys.len() >= 1,
        input.len() == WIDTH,
        keys[0]@.len() == WIDTH,
        key_added(before, cs, input, keys[0]@, state),
    ensures
        proves_chain(cs, before.constraints().len() as int, input, keys, seq![state], e),
{
    let from = before.constraints().len() as int;
    assert forall|w: Seq<int>|
        residues(w, cs.values().len()) && w[0] == 1 && #[trigger] met_between(
            cs,
            from,
            cs.constraints().len() as int,
            w,
        ) implies rescue_chain(
        read(w, input),
        read_schedule(w, keys),
        read_states(w, seq![state]),
        e,
    ) by {
        let first = read_states(w, seq![state])[0];
        let sums = key_sums(read(w, input), read_schedule(w, keys)[0]);
        assert(first.len() == sums.len());
        assert forall|i: int| 0 <= i < WIDTH implies first[i] == sums[i] by {
            assert(proves_sum(
                cs,
                from,
                input[i].variable(),
                keys[0]@[i].variable(),
                state[i].variable(),
            ));
        }
        assert(first =~= sums);
    }
}

/// One more round extends a run by one state.
proof fn lemma_chain_grows(
    c0: R1cs,
    c6: R1cs,
    from: int,
    input: Seq<AllocatedNum>,
    keys: Seq<Vec<AllocatedNum>>,
    states: Seq<Seq<AllocatedNum>>,
    s1: Seq<AllocatedNum>,
    s3: Seq<AllocatedNum>,
    s4: Seq<AllocatedNum>,
    s6: Seq<AllocatedNum>,
    e: nat,
)
    requires
        0 <= from <= c0.constraints().len(),
        c6.extends(&c0),
        states.len() >= 1,
        2 * states.len() < keys.len(),
        states.last().len() == WIDTH,
        keys[2 * states.len() - 1]@.len() == WIDTH,
        keys[2 * states.len() as int]@.len() == WIDTH,
        s1.len() == WIDTH,
        s3.len() == WIDTH,
        s4.len() == WIDTH,
        s6.len() == WIDTH,
        all_allocated_in(s4, c6),
        all_allocated_in(keys[2 * states.len() as int]@, c6),
        proves_chain(c0, from, input, keys, states, e),
        layer_proves_power(c6, from, states.last(), s1, e),
        layer_proves_sum(c6, from, s1, keys[2 * states.len() - 1]@, s3),
        layer_proves_root(c6, from, s3, s4, e),
        layer_proves_sum(c6, from, s4, keys[2 * states.len() as int]@, s6),
    ensures
        proves_chain(c6, from, input, keys, states.push(s6), e),
{
    let r = states.len() as int;
    let s0 = states.last();
    let k1 = keys[2 * r - 1]@;
    let k2 = keys[2 * r]@;
    let longer = states.push(s6);
    assert forall|w: Seq<int>|
        residues(w, c6.values().len()) && w[0] == 1 && #[trigger] met_between(
            c6,
            from,
            c6.constraints().len() as int,
            w,
        ) implies rescue_chain(
        read(w, input),
        read_schedule(w, keys),
        read_states(w, longer),
        e,
    ) by {
        lemma_met_in_prefix(c0, c6, from, from, w);
        assert(met_between(c0, from, c0.constraints().len() as int, w));
        let ks = read_schedule(w, keys);
        let old_states = read_states(w, states);
        let new_states = read_states(w, longer);
        assert(rescue_chain(read(w, input), ks, old_states, e));
        assert(new_states[0] == old_states[0]) by {
            assert(longer[0] == states[0]);
        }
        assert forall|q: int| 1 <= q < new_states.len() implies round_relates(
            new_states[q - 1],
            ks[2 * q - 1],
            ks[2 * q],
            #[trigger] new_states[q],
            e,
        ) by {
            if q < r {
                assert(longer[q] == states[q]);
                assert(longer[q - 1] == states[q - 1]);
                assert(new_states[q] == old_states[q]);
                assert(new_states[q - 1] == old_states[q - 1]);
                assert(round_relates(
                    old_states[q - 1],
                    ks[2 * q - 1],
                    ks[2 * q],
                    old_states[q],
                    e,
                ));
            } else {
                assert(longer[r] == s6);
                assert(longer[r - 1] == s0);
                let prev = read(w, s0);
                let next = read(w, s6);
                assert forall|i: int| 0 <= i < WIDTH implies pow_mod(
                    (#[trigger] next[i] - ks[2 * r][i]) % modulus(),
                    e,
                    modulus(),
                ) == (pow_mod(prev[i], e, modulus()) + ks[2 * r - 1][i]) % modulus() by {
                    assert(proves_power(c6, from, s0[i].variable(), s1[i].variable(), e));
                    assert(proves_sum(
                        c6,
                        from,
                        s1[i].variable(),
                        k1[i].variable(),
                        s3[i].variable(),
                    ));
                    assert(proves_root(c6, from, s3[i].variable(), s4[i].variable(), e));
                    assert(proves_sum(
                        c6,
                        from,
                        s4[i].variable(),
                        k2[i].variable(),
                        s6[i].variable(),
                    ));
                    assert(s4[i].allocated_in(c6));
                    assert(k2[i].allocated_in(c6));
                    lemma_sum_undone(w[s4[i].variable().0 as int], w[k2[i].variable().0 as int]);
                }
            }
        }
    }
}

/// Why the permutation refuses its arguments, if it does: the state must
/// have the permutation's width, the schedule one key for the start and two
/// for each round, and every key the permutation's width.
pub open spec fn shape_error(input_len: nat, keys: Seq<Vec<AllocatedNum>>) -> Option<GadgetError> {
    if input_len != WIDTH {
        Some(GadgetError::InvalidStateLength)
    } else if keys.len() != 2 * ROUNDS + 1 {
        Some(GadgetError::InvalidKeyScheduleLength)
    } else if exists|k: int| 0 <= k < keys.len() && (#[trigger] keys[k])@.len() != WIDTH {
        Some(GadgetError::InvalidKeyLength)
    } else {
        None
    }
}

/// What the permutation leaves behind: the gates of the first key addition
/// and of every round, with one new variable for each; the outputs carry the
/// state after the last round; the gates are met exactly when the values are
/// consistent; and they prove that the permutation takes the input to the
/// outputs.
pub open spec fn rescue_built(
    before: R1cs,
    after: R1cs,
    input: Seq<AllocatedNum>,
    keys: Seq<Vec<AllocatedNum>>,
    e: nat,
    out: Seq<AllocatedNum>,
) -> bool {
    &&& layer_built(before, after, out, WIDTH + ROUNDS * round_gates(e))
    &&& numbers(out) == rescue_values(numbers(input), schedule_numbers(keys), e, ROUNDS as nat)
    &&& after.satisfied() == (before.satisfied() && rescue_consistent(
        numbers(input),
        schedule_numbers(keys),
        e,
        ROUNDS as nat,
    ))
    &&& proves_rescue(after, before.constraints().len() as int, input, keys, out, e)
}

/// The Rescue permutation on a state of `WIDTH` numbers: the first key is
/// added, then each of the `ROUNDS` rounds applies the forward S-box layer,
/// the mixing layer, a key addition, the inverse S-box layer, the mixing layer
/// and a key addition. Arguments of the wrong shape are refused and leave the
/// system as it was.
pub fn rescue_round_function(
    cs: &mut R1cs,
    input: Vec<AllocatedNum>,
    key: Vec<Vec<AllocatedNum>>,
) -> (r: Result<Vec<AllocatedNum>, GadgetError>)
    requires
        old(cs).wf(),
        all_allocated_in(input@, *old(cs)),
        forall|k: int| 0 <= k < key@.len() ==> all_allocated_in((#[trigger] key@[k])@, *old(cs)),
    ensures
        shape_error(input@.len(), key@).is_some() ==> r == Err::<Vec<AllocatedNum>, GadgetError>(
            shape_error(input@.len(), key@).unwrap(),
        ) && unchanged(*old(cs), *final(cs)),
        shape_error(input@.len(), key@).is_none() ==> r.is_ok() && rescue_built(
            *old(cs),
            *final(cs),
            input@,
            key@,
            5,
            r.unwrap()@,
        ),
{
    let alpha = get_alpha();
    if input.len() != WIDTH {
        return Err(GadgetError::InvalidStateLength);
    }
    if key.len() != ROUNDS * 2 + 1 {
        return Err(GadgetError::InvalidKeyScheduleLength);
    }
    let ghost start = *cs;
    let mut k: usize = 0;
    while k < key.len()
        invariant
            0 <= k <= key@.len(),
            input@.len() == WIDTH,
            key@.len() == 2 * ROUNDS + 1,
            *cs == start,
            forall|j: int| 0 <= j < k ==> (#[trigger] key@[j])@.len() == WIDTH,
        decreases key@.len() - k,
    {
        if key[k].len() != WIDTH {
            assert(key@[k as int]@.len() != WIDTH);
            return Err(GadgetError::InvalidKeyLength);
        }
        k = k + 1;
    }
    let ghost before = *cs;
    let ghost from = cs.constraints().len() as int;
    let ghost e = alpha@ as nat;
    let ghost entering = input@;
    let ghost entered = numbers(input@);
    let ghost keys = schedule_numbers(key@);
    let mut state = match add_key(cs, input, &key[0]) {
        Ok(state) => state,
        Err(error) => {
            return Err(error);
        },
    };
    let ghost mut trace = seq![state@];
    proof {
        assert(keys[0] == numbers(key@[0]@));
        lemma_chain_starts(before, *cs, entering, key@, state@, e);
    }
    let mut round: usize = 1;
    while round <= ROUNDS
        invariant
            1 <= round <= ROUNDS + 1,
            key@.len() == 2 * ROUNDS + 1,
            forall|j: int| 0 <= j < key@.len() ==> (#[trigger] key@[j])@.len() == WIDTH,
            forall|j: int| 0 <= j < key@.len() ==> all_allocated_in((#[trigger] key@[j])@, before),
            keys == schedule_numbers(key@),
            alpha.wf(),
            alpha@ > 1,
            e == alpha@ as nat,
            before.wf(),
            from == before.constraints().len(),
            trace.len() == round,
            trace.last() == state@,
            proves_chain(*cs, from, entering, key@, trace, e),
            layer_built(before, *cs, state@, WIDTH + (round - 1) * round_gates(e)),
            numbers(state@) == rescue_values(entered, keys, e, (round - 1) as nat),
            cs.satisfied() == (before.satisfied() && rescue_consistent(
                entered,
                keys,
                e,
                (round - 1) as nat,
            )),
        decreases ROUNDS + 1 - round,
    {
        let ghost c0 = *cs;
        let ghost s0 = state@;
        let s1 = match power_layer(cs, &state, &alpha) {
            Ok(next) => next,
            Err(error) => {
                return Err(error);
            },
        };
        let ghost c1 = *cs;
        let s2 = match generate_mds(cs, s1) {
            Ok(next) => next,
            Err(error) => {
                return Err(error);
            },
        };
        proof {
            c1.lemma_extends_transitive(&c0, &before);
            assert(all_allocated_in(key@[round * 2 - 1]@, before));
            lemma_all_allocated_kept(before, c1, key@[round * 2 - 1]@);
        }
        let s3 = match add_key(cs, s2, &key[round * 2 - 1]) {
            Ok(next) => next,
            Err(error) => {
                return Err(error);
            },
        };
        let ghost c3 = *cs;
        let s4 = match root_layer(cs, &s3, &alpha) {
            Ok(next) => next,
            Err(error) => {
                return Err(error);
            },
        };
        let ghost c4 = *cs;
        let s5 = match generate_mds(cs, s4) {
            Ok(next) => next,
            Err(error) => {
                return Err(error);
            },
        };
        proof {
            c3.lemma_extends_transitive(&c1, &before);
            c4.lemma_extends_transitive(&c3, &before);
            assert(all_allocated_in(key@[round * 2]@, before));
            lemma_all_allocated_kept(before, c4, key@[round * 2]@);
        }
        let s6 = match add_key(cs, s5, &key[round * 2]) {
            Ok(next) => next,
            Err(error) => {
                return Err(error);
            },
        };
        proof {
            cs.lemma_extends_transitive(&c4, &before);
            let k1 = keys[round * 2 - 1];
            let k2 = keys[round * 2 as int];
            assert(k1 == numbers(key@[round * 2 - 1]@));
            assert(k2 == numbers(key@[round * 2 as int]@));
            assert(numbers(s3@) == half_round_values(numbers(s0), k1, e));
            assert(numbers(s6@) == round_values(numbers(s0), k1, k2, e));
            if c0.satisfied() {
                lemma_satisfied_all_present(c0, s0);
            }
            if c1.satisfied() {
                lemma_satisfied_all_present(c1, s2@);
            }
            if c4.satisfied() {
                lemma_satisfied_all_present(c4, s5@);
            }
            let g = round_gates(e);
            assert(round * g == (round - 1) * g + g) by (nonlinear_arith);
            assert(0 <= (round - 1) * g) by (nonlinear_arith)
                requires
                    1 <= round,
                    0 <= g,
            ;
            let c6 = *cs;
            c6.lemma_extends_transitive(&c4, &c3);
            c6.lemma_extends_transitive(&c3, &c1);
            c6.lemma_extends_transitive(&c1, &c0);
            assert(c6.values().take(c6.values().len() as int) =~= c6.values());
            assert(c6.constraints().take(c6.constraints().len() as int) =~= c6.constraints());
            lemma_layer_power_kept(c1, c6, c0.constraints().len() as int, from, s0, s2@, e);
            lemma_layer_sum_kept(
                c3,
                c6,
                c1.constraints().len() as int,
                from,
                s2@,
                key@[round * 2 - 1]@,
                s3@,
            );
            lemma_layer_root_kept(c4, c6, c3.constraints().len() as int, from, s3@, s5@, e);
            lemma_layer_sum_kept(
                c6,
                c6,
                c4.constraints().len() as int,
                from,
                s5@,
                key@[round * 2 as int]@,
                s6@,
            );
            lemma_all_allocated_kept(c4, c6, s5@);
            lemma_all_allocated_kept(before, c6, key@[round * 2 as int]@);
            lemma_chain_grows(c0, c6, from, entering, key@, trace, s2@, s3@, s5@, s6@, e);
            trace = trace.push(s6@);
        }
        state = s6;
        round = round + 1;
    }
    proof {
        assert forall|w: Seq<int>|
            residues(w, cs.values().len()) && w[0] == 1 && #[trigger] met_between(
                *cs,
                from,
                cs.constraints().len() as int,
                w,
            ) implies rescue_relates(
            read(w, entering),
            read_schedule(w, key@),
            read(w, state@),
            e,
        ) by {
            let states = read_states(w, trace);
            assert(rescue_chain(read(w, entering), read_schedule(w, key@), states, e));
            assert(states[ROUNDS as int] == read(w, trace[ROUNDS as int]));
        }
    }
    Ok(state)
}

/// The shape of the permutation does not depend on the witness: two runs add
/// the same number of constraints and of variables, whatever the values of
/// their states and keys, present or absent.
pub proof fn lemma_permutation_shape(
    before1: R1cs,
    after1: R1cs,
    input1: Seq<AllocatedNum>,
    keys1: Seq<Vec<AllocatedNum>>,
    out1: Seq<AllocatedNum>,
    before2: R1cs,
    after2: R1cs,
    input2: Seq<AllocatedNum>,
    keys2: Seq<Vec<AllocatedNum>>,
    out2: Seq<AllocatedNum>,
    e: nat,
)
    requires
        rescue_built(before1, after1, input1, keys1, e, out1),
        rescue_built(before2, after2, input2, keys2, e, out2),
    ensures
        after1.constraints().len() - before1.constraints().len() == after2.constraints().len()
            - before2.constraints().len(),
        after1.values().len() - before1.values().len() == after2.values().len()
            - before2.values().len(),
        out1.len() == WIDTH,
        out2.len() == WIDTH,
{
}

} // verus!
