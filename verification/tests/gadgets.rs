use bellman_ce::pairing::bn256::Fr;
use bellman_ce::pairing::ff::PrimeField;
use num_bigint::BigInt;
use rescue::{
    add_key, fr_to_bigint, generate_mds, generate_powers, generate_roots, get_alpha,
    prime_modulus, rescue_round_function, root_witness, AllocatedNum, FieldElement, GadgetError,
    Integer, LinearCombination, R1cs, Variable,
};

fn as_big(v: &Integer) -> BigInt {
    BigInt::from_signed_bytes_be(&v.to_signed_bytes_be())
}

fn fr(s: &str) -> FieldElement {
    FieldElement::from_repr(Fr::from_str(s).unwrap().into_repr().0).unwrap()
}

fn allocate_all(cs: &mut R1cs, values: &[u64]) -> Vec<AllocatedNum> {
    values
        .iter()
        .map(|v| AllocatedNum::allocate(cs, Some(FieldElement::from_u64(*v))))
        .collect()
}

fn state_of(cs: &mut R1cs, first: u64) -> Vec<AllocatedNum> {
    let values: Vec<u64> = (0..16u64).map(|i| first + i).collect();
    allocate_all(cs, &values)
}

fn schedule_of(cs: &mut R1cs, keys: usize, width: u64) -> Vec<Vec<AllocatedNum>> {
    let mut schedule = Vec::new();
    for k in 0..keys {
        let values: Vec<u64> = (0..width).map(|i| 1000 * (k as u64 + 1) + i).collect();
        schedule.push(allocate_all(cs, &values));
    }
    schedule
}

#[test]
fn power_test() {
    let values: Vec<(&str, &str, &str, usize)> = vec![
        // x, a, x^a, constraints
        ("1", "2", "1", 1),
        ("1", "3", "1", 2),
        ("1", "4", "1", 2),
        ("1", "5", "1", 3),
        ("1", "6", "1", 3),
        ("1", "7", "1", 4),
        ("2", "2", "4", 1),
        ("2", "3", "8", 2),
        ("2", "4", "16", 2),
        ("2", "5", "32", 3),
        ("2", "6", "64", 3),
        ("2", "7", "128", 4),
        ("3", "2", "9", 1),
        ("3", "3", "27", 2),
        ("3", "4", "81", 2),
        ("3", "5", "243", 3),
        ("3", "6", "729", 3),
        ("3", "7", "2187", 4),
    ];
    for (x_s, a_s, y_s, n) in values {
        let mut cs = R1cs::new();
        let x = AllocatedNum::allocate(&mut cs, Some(fr(&x_s[..])));
        let a = fr(&a_s[..]);
        let y = generate_powers(&mut cs, &x, &a).unwrap();

        let xx = as_big(&fr_to_bigint(x.get_value().unwrap().clone()));
        let yy = as_big(&fr_to_bigint(y.get_value().unwrap().clone()));
        let k = as_big(&fr_to_bigint(a));
        assert_eq!(xx.modpow(&k, &as_big(&prime_modulus())), yy.clone());

        assert!(cs.is_satisfied());
        assert_eq!(cs.num_constraints(), n);
        assert_eq!(y.get_value().unwrap(), fr(&y_s[..]));
    }
}

#[test]
fn root_test() {
    let alpha = get_alpha();
    let k = as_big(&fr_to_bigint(alpha.clone()));
    let values = vec!["1", "2", "3", "4", "5", "6", "7", "8", "9"];
    for x_s in values {
        let mut cs = R1cs::new();
        let x = AllocatedNum::allocate(&mut cs, Some(fr(&x_s[..])));
        let y = generate_roots(&mut cs, &x, &alpha).unwrap();

        let xx = as_big(&fr_to_bigint(x.get_value().unwrap().clone()));
        let yy = as_big(&fr_to_bigint(y.get_value().unwrap().clone()));
        assert_eq!(yy.modpow(&k, &as_big(&prime_modulus())), xx.clone());
        assert!(cs.is_satisfied());
    }
}

#[test]
fn power_of_a_large_exponent() {
    let mut cs = R1cs::new();
    let x = AllocatedNum::allocate(&mut cs, Some(fr("3")));
    // 1000 is 1111101000 in binary: ten digits, six of them set
    let y = generate_powers(&mut cs, &x, &fr("1000")).unwrap();
    assert_eq!(cs.num_constraints(), 9 + 5);
    assert_eq!(cs.num_variables(), 2 + 9 + 5);
    assert!(cs.is_satisfied());
    let expected = BigInt::from(3).modpow(&BigInt::from(1000), &as_big(&prime_modulus()));
    assert_eq!(as_big(&fr_to_bigint(y.get_value().unwrap())), expected);
}

#[test]
fn power_wraps_around_the_modulus() {
    let mut cs = R1cs::new();
    let top = "21888242871839275222246405745257275088548364400416034343698204186575808495616";
    let x = AllocatedNum::allocate(&mut cs, Some(fr(top)));
    let y = generate_powers(&mut cs, &x, &fr("2")).unwrap();
    assert_eq!(y.get_value().unwrap(), fr("1"));
    let z = generate_powers(&mut cs, &x, &fr("3")).unwrap();
    assert_eq!(z.get_value().unwrap(), fr(top));
    assert!(cs.is_satisfied());
}

#[test]
fn exponents_zero_and_one_are_refused() {
    for alpha in ["0", "1"] {
        let mut cs = R1cs::new();
        let x = AllocatedNum::allocate(&mut cs, Some(fr("2")));
        let refused = generate_powers(&mut cs, &x, &fr(alpha));
        assert_eq!(refused.err(), Some(GadgetError::InvalidExponent));
        assert_eq!(cs.num_constraints(), 0);
        assert_eq!(cs.num_variables(), 2);
        let refused = generate_roots(&mut cs, &x, &fr(alpha));
        assert_eq!(refused.err(), Some(GadgetError::InvalidExponent));
        assert_eq!(cs.num_constraints(), 0);
        assert_eq!(cs.num_variables(), 2);
    }
}

#[test]
fn shape_does_not_depend_on_the_witness() {
    for alpha in ["2", "3", "4", "5", "6", "7", "255", "256"] {
        let mut with = R1cs::new();
        let x = AllocatedNum::allocate(&mut with, Some(fr("7")));
        let y = generate_powers(&mut with, &x, &fr(alpha)).unwrap();
        assert!(y.get_value().is_some());
        let r = generate_roots(&mut with, &x, &fr(alpha)).unwrap();
        assert!(r.get_value().is_some());

        let mut without = R1cs::new();
        let x = AllocatedNum::allocate(&mut without, None);
        let y = generate_powers(&mut without, &x, &fr(alpha)).unwrap();
        assert_eq!(y.get_value(), None);
        let r = generate_roots(&mut without, &x, &fr(alpha)).unwrap();
        assert_eq!(r.get_value(), None);

        assert_eq!(with.num_constraints(), without.num_constraints());
        assert_eq!(with.num_variables(), without.num_variables());
        assert!(!without.is_satisfied());
    }
}

#[test]
fn root_gadget_counts() {
    // exponent, gates: the squarings, and the multiplications with the last
    // one wired to the argument; for a power of two one gate of equality
    let values: Vec<(&str, usize)> =
        vec![("2", 2), ("3", 2), ("4", 3), ("5", 3), ("6", 3), ("7", 4), ("8", 4)];
    for (alpha, gates) in values {
        let mut cs = R1cs::new();
        let x = AllocatedNum::allocate(&mut cs, Some(fr("9")));
        let root = generate_roots(&mut cs, &x, &fr(alpha)).unwrap();
        assert_eq!(cs.num_constraints(), gates);
        assert_eq!(cs.num_variables(), 2 + gates);
        assert_eq!(root.get_variable(), Variable(2));
    }
}

#[test]
fn root_of_a_power_of_two_exponent_is_checked_against_the_argument() {
    // 4 is not invertible modulo p - 1, so the witness is no fourth root of 3,
    // and the constraint that ties the last square to the argument fails
    let mut cs = R1cs::new();
    let x = AllocatedNum::allocate(&mut cs, Some(fr("3")));
    let root = generate_roots(&mut cs, &x, &fr("4")).unwrap();
    let p = as_big(&prime_modulus());
    let r = as_big(&fr_to_bigint(root.get_value().unwrap()));
    let fourth = r.modpow(&BigInt::from(4), &p);
    assert_eq!(cs.is_satisfied(), fourth == BigInt::from(3));
    // a fourth power has itself as argument of a satisfied gadget
    let mut cs = R1cs::new();
    let x = AllocatedNum::allocate(&mut cs, Some(fr("1")));
    generate_roots(&mut cs, &x, &fr("4")).unwrap();
    assert!(cs.is_satisfied());
}

#[test]
fn power_and_root_are_inverse_to_each_other() {
    let alpha = get_alpha();
    for v in [0u64, 1, 2, 3, 10, 12345, u64::MAX] {
        let mut cs = R1cs::new();
        let x = AllocatedNum::allocate(&mut cs, Some(FieldElement::from_u64(v)));
        let y = generate_powers(&mut cs, &x, &alpha).unwrap();
        let back = generate_roots(&mut cs, &y, &alpha).unwrap();
        assert_eq!(back.get_value(), x.get_value());
        let r = generate_roots(&mut cs, &x, &alpha).unwrap();
        let again = generate_powers(&mut cs, &r, &alpha).unwrap();
        assert_eq!(again.get_value(), x.get_value());
        assert!(cs.is_satisfied());
    }
}

#[test]
fn root_witness_is_the_power_to_the_inverse_exponent() {
    let alpha = get_alpha();
    assert_eq!(root_witness(None, &alpha), None);
    assert_eq!(root_witness(Some(fr("1")), &alpha), Some(fr("1")));
    assert_eq!(root_witness(Some(fr("32")), &alpha), Some(fr("2")));
    assert_eq!(root_witness(Some(fr("243")), &alpha), Some(fr("3")));
    assert_eq!(root_witness(Some(fr("0")), &alpha), Some(fr("0")));
}

#[test]
fn a_wrong_witness_is_not_satisfied() {
    let mut cs = R1cs::new();
    assert!(cs.is_satisfied());
    let x = cs.allocate(Some(fr("2")));
    let y = cs.allocate(Some(fr("5")));
    cs.enforce(
        LinearCombination::single(x),
        LinearCombination::single(x),
        LinearCombination::single(y),
    );
    assert!(!cs.is_satisfied());
    let z = cs.allocate(Some(fr("4")));
    let mut right = R1cs::new();
    let x = right.allocate(Some(fr("2")));
    let _ = right.allocate(Some(fr("5")));
    right.enforce(
        LinearCombination::single(x),
        LinearCombination::single(x),
        LinearCombination::single(z),
    );
    let _ = right.allocate(Some(fr("4")));
    assert!(right.is_satisfied());
    assert_eq!(right.num_constraints(), 1);
    assert_eq!(right.value_of(z), Some(fr("4")));
    assert_eq!(R1cs::one(), Variable(0));
    assert_eq!(right.value_of(R1cs::one()), Some(fr("1")));
}

#[test]
fn numbers_multiply_and_add_in_the_field() {
    let mut cs = R1cs::new();
    let a = AllocatedNum::allocate(&mut cs, Some(fr("6")));
    let b = AllocatedNum::allocate(&mut cs, Some(fr("7")));
    assert_eq!(a.mul(&mut cs, &b).get_value(), Some(fr("42")));
    assert_eq!(a.add(&mut cs, &b).get_value(), Some(fr("13")));
    assert_eq!(a.square(&mut cs).get_value(), Some(fr("36")));
    let top = "21888242871839275222246405745257275088548364400416034343698204186575808495616";
    let c = AllocatedNum::allocate(&mut cs, Some(fr(top)));
    assert_eq!(c.add(&mut cs, &a).get_value(), Some(fr("5")));
    assert_eq!(c.mul(&mut cs, &c).get_value(), Some(fr("1")));
    let none = AllocatedNum::allocate(&mut cs, None);
    assert_eq!(none.add(&mut cs, &a).get_value(), None);
    assert_eq!(a.mul(&mut cs, &none).get_value(), None);
    assert_eq!(none.square(&mut cs).get_value(), None);
    assert_eq!(cs.num_constraints(), 8);
    assert!(!cs.is_satisfied());
}

#[test]
fn add_key_adds_entry_by_entry() {
    let mut cs = R1cs::new();
    let state = state_of(&mut cs, 1);
    let key = state_of(&mut cs, 100);
    let variables = cs.num_variables();
    let sum = add_key(&mut cs, state, &key).unwrap();
    assert_eq!(sum.len(), 16);
    for i in 0..16usize {
        assert_eq!(sum[i].get_value(), Some(FieldElement::from_u64(101 + 2 * i as u64)));
        assert_eq!(sum[i].get_variable(), Variable(variables + i));
    }
    assert_eq!(cs.num_constraints(), 16);
    assert_eq!(cs.num_variables(), variables + 16);
    assert!(cs.is_satisfied());
}

#[test]
fn add_key_refuses_wrong_lengths() {
    let mut cs = R1cs::new();
    let short = allocate_all(&mut cs, &[1, 2, 3]);
    let key = state_of(&mut cs, 100);
    assert_eq!(add_key(&mut cs, short, &key).err(), Some(GadgetError::InvalidStateLength));
    let state = state_of(&mut cs, 1);
    let short_key = allocate_all(&mut cs, &[1, 2, 3]);
    assert_eq!(add_key(&mut cs, state, &short_key).err(), Some(GadgetError::InvalidKeyLength));
    assert_eq!(cs.num_constraints(), 0);
}

#[test]
fn mixing_layer_hands_the_state_on() {
    let mut cs = R1cs::new();
    let state = state_of(&mut cs, 1);
    let variables = cs.num_variables();
    let mixed = generate_mds(&mut cs, state.clone()).unwrap();
    assert_eq!(mixed.len(), 16);
    for i in 0..16usize {
        assert_eq!(mixed[i].get_variable(), state[i].get_variable());
        assert_eq!(mixed[i].get_value(), state[i].get_value());
    }
    assert_eq!(cs.num_variables(), variables);
    assert_eq!(cs.num_constraints(), 0);
    let short = allocate_all(&mut cs, &[1]);
    assert_eq!(generate_mds(&mut cs, short).err(), Some(GadgetError::InvalidStateLength));
}

#[test]
fn permutation_has_the_expected_shape() {
    let mut cs = R1cs::new();
    let input = state_of(&mut cs, 1);
    let key = schedule_of(&mut cs, 33, 16);
    let variables = cs.num_variables();
    assert_eq!(variables, 1 + 16 + 33 * 16);
    let out = rescue_round_function(&mut cs, input, key).unwrap();
    assert_eq!(out.len(), 16);
    // one key addition, then 16 rounds of 16 * 3 + 16 + 16 * 3 + 16 gates
    assert_eq!(cs.num_constraints(), 16 + 16 * 128);
    assert_eq!(cs.num_variables(), variables + 16 + 16 * 128);
    assert!(cs.is_satisfied());
    for i in 0..16usize {
        assert_eq!(cs.value_of(out[i].get_variable()), out[i].get_value());
        assert!(out[i].get_value().is_some());
    }
}

#[test]
fn permutation_without_witness_has_the_same_shape() {
    let mut cs = R1cs::new();
    let input: Vec<AllocatedNum> =
        (0..16).map(|_| AllocatedNum::allocate(&mut cs, None)).collect();
    let mut key = Vec::new();
    for _ in 0..33 {
        let k: Vec<AllocatedNum> =
            (0..16).map(|_| AllocatedNum::allocate(&mut cs, None)).collect();
        key.push(k);
    }
    let out = rescue_round_function(&mut cs, input, key).unwrap();
    assert_eq!(out.len(), 16);
    assert_eq!(cs.num_constraints(), 16 + 16 * 128);
    assert!(out.iter().all(|n| n.get_value().is_none()));
    assert!(!cs.is_satisfied());
}

#[test]
fn permutation_follows_the_rounds() {
    let p = as_big(&prime_modulus());
    let q = &p - 1;
    let five = BigInt::from(5);
    let inverse = five.modinv(&q).unwrap();
    let mut cs = R1cs::new();
    let input = state_of(&mut cs, 1);
    let key = schedule_of(&mut cs, 33, 16);
    let value = |n: &AllocatedNum| as_big(&fr_to_bigint(n.get_value().unwrap()));
    let mut state: Vec<BigInt> =
        (0..16).map(|i| (value(&input[i]) + value(&key[0][i])) % &p).collect();
    for r in 1..=16usize {
        for i in 0..16usize {
            let powered = state[i].modpow(&five, &p);
            let keyed = (powered + value(&key[2 * r - 1][i])) % &p;
            let rooted = keyed.modpow(&inverse, &p);
            state[i] = (rooted + value(&key[2 * r][i])) % &p;
        }
    }
    let out = rescue_round_function(&mut cs, input, key).unwrap();
    for i in 0..16usize {
        assert_eq!(value(&out[i]), state[i]);
    }
}

#[test]
fn permutation_refuses_wrong_shapes() {
    let mut cs = R1cs::new();
    let input = allocate_all(&mut cs, &[1, 2, 3]);
    let key = schedule_of(&mut cs, 33, 16);
    assert_eq!(
        rescue_round_function(&mut cs, input, key).err(),
        Some(GadgetError::InvalidStateLength)
    );
    let input = allocate_all(&mut cs, &[0; 17]);
    let key = schedule_of(&mut cs, 33, 16);
    assert_eq!(
        rescue_round_function(&mut cs, input, key).err(),
        Some(GadgetError::InvalidStateLength)
    );
    for keys in [0usize, 1, 32, 34] {
        let input = state_of(&mut cs, 1);
        let key = schedule_of(&mut cs, keys, 16);
        assert_eq!(
            rescue_round_function(&mut cs, input, key).err(),
            Some(GadgetError::InvalidKeyScheduleLength)
        );
    }
    let input = state_of(&mut cs, 1);
    let mut key = schedule_of(&mut cs, 33, 16);
    key[32].pop();
    assert_eq!(
        rescue_round_function(&mut cs, input, key).err(),
        Some(GadgetError::InvalidKeyLength)
    );
    // a wrong state is reported before a wrong schedule
    let input = allocate_all(&mut cs, &[1]);
    let key = schedule_of(&mut cs, 2, 3);
    assert_eq!(
        rescue_round_function(&mut cs, input, key).err(),
        Some(GadgetError::InvalidStateLength)
    );
    assert_eq!(cs.num_constraints(), 0);
}

#[test]
fn combinations_evaluate_in_the_field() {
    let values = vec![fr("1"), fr("6"), fr("7")];
    let single = LinearCombination::single(Variable(2));
    assert_eq!(single.evaluate(&values), fr("7"));
    let pair = LinearCombination::pair(Variable(1), Variable(2));
    assert_eq!(pair.evaluate(&values), fr("13"));
    let weighted = LinearCombination {
        terms: vec![(Variable(0), fr("5")), (Variable(1), fr("3")), (Variable(2), fr("2"))],
    };
    assert_eq!(weighted.evaluate(&values), fr("37"));
    let empty = LinearCombination { terms: vec![] };
    assert_eq!(empty.evaluate(&values), fr("0"));
}

#[test]
fn recorded_constraints_can_be_read_back() {
    let mut cs = R1cs::new();
    let a = AllocatedNum::allocate(&mut cs, Some(fr("6")));
    let b = AllocatedNum::allocate(&mut cs, Some(fr("7")));
    let product = a.mul(&mut cs, &b);
    let sum = a.add(&mut cs, &b);
    let gate = cs.constraint(0);
    assert_eq!(gate.a.terms, vec![(a.get_variable(), fr("1"))]);
    assert_eq!(gate.b.terms, vec![(b.get_variable(), fr("1"))]);
    assert_eq!(gate.c.terms, vec![(product.get_variable(), fr("1"))]);
    let gate = cs.constraint(1);
    assert_eq!(gate.a.terms, vec![(a.get_variable(), fr("1")), (b.get_variable(), fr("1"))]);
    assert_eq!(gate.b.terms, vec![(Variable(0), fr("1"))]);
    assert_eq!(gate.c.terms, vec![(sum.get_variable(), fr("1"))]);
    assert!(cs.is_satisfied());
}

#[test]
fn root_gadget_wires_its_last_gate_to_the_argument() {
    let mut cs = R1cs::new();
    let x = AllocatedNum::allocate(&mut cs, Some(fr("32")));
    let root = generate_roots(&mut cs, &x, &fr("5")).unwrap();
    assert_eq!(root.get_value(), Some(fr("2")));
    // root, its square, its fourth power; the last gate multiplies the fourth
    // power by the root and has the argument as its output
    assert_eq!(cs.num_variables(), 5);
    assert_eq!(cs.value_of(Variable(3)), Some(fr("4")));
    assert_eq!(cs.value_of(Variable(4)), Some(fr("16")));
    let last = cs.constraint(2);
    assert_eq!(last.a.terms, vec![(Variable(4), fr("1"))]);
    assert_eq!(last.b.terms, vec![(root.get_variable(), fr("1"))]);
    assert_eq!(last.c.terms, vec![(x.get_variable(), fr("1"))]);
    assert!(cs.is_satisfied());
}
