use ark_bn254::Fr as ArkFr;
use ark_ff::{Field, PrimeField};
use ark_r1cs_std::alloc::AllocVar;
use ark_r1cs_std::fields::fp::FpVar as ArkFpVar;
use ark_r1cs_std::fields::FieldVar;
use ark_r1cs_std::R1CSVar;
use ark_relations::r1cs::{ConstraintSystemRef, SynthesisError, SynthesisMode};
use zk_data_quality::field::Fr;
use zk_data_quality::gadgets::{is_leq, is_lt, is_nonzero, is_zero};
use zk_data_quality::r1cs::{ConstraintSystem, FpVar};

fn new_system() -> ConstraintSystem {
    ConstraintSystem { inner: ark_relations::r1cs::ConstraintSystem::<ArkFr>::new_ref() }
}

fn witness(cs: &ConstraintSystem, x: ArkFr) -> FpVar {
    FpVar { inner: ArkFpVar::new_witness(cs.inner.clone(), || Ok(x)).unwrap() }
}

fn constant(x: ArkFr) -> FpVar {
    FpVar { inner: ArkFpVar::constant(x) }
}

/// The answer of `is_leq` on two witnesses, and whether its constraints are met.
fn leq(a: ArkFr, b: ArkFr, n_bits: usize) -> (bool, bool) {
    let mut cs = new_system();
    let a = witness(&cs, a);
    let b = witness(&cs, b);
    let bit = is_leq(&mut cs, &a, &b, n_bits).unwrap();
    (bit.inner.value().unwrap(), cs.inner.is_satisfied().unwrap())
}

fn two_to(n: u64) -> ArkFr {
    ArkFr::from(2u64).pow([n])
}

#[test]
fn zero_is_zero() {
    let mut cs = new_system();
    for (x, expected) in [(ArkFr::from(0u64), true), (ArkFr::from(1u64), false)] {
        for v in [witness(&cs, x), constant(x)] {
            assert_eq!(is_zero(&mut cs, &v).unwrap().inner.value().unwrap(), expected);
            assert_eq!(is_nonzero(&mut cs, &v).unwrap().inner.value().unwrap(), !expected);
        }
    }
    assert!(cs.inner.is_satisfied().unwrap());
}

#[test]
fn constants_are_compared_with_zero_without_a_system() {
    let mut cs = ConstraintSystem { inner: ConstraintSystemRef::None };
    let v = constant(ArkFr::from(5u64));
    assert!(is_nonzero(&mut cs, &v).unwrap().inner.value().unwrap());
    assert!(!is_zero(&mut cs, &v).unwrap().inner.value().unwrap());
}

#[test]
fn leq_compares_numbers_below_the_bound() {
    let max = u64::MAX;
    for (a, b) in [(0, 0), (0, 1), (1, 0), (7, 7), (6, 7), (8, 7), (0, max), (max, 0), (max, max)] {
        let answer = leq(ArkFr::from(a), ArkFr::from(b), 64);
        assert_eq!(answer, (a <= b, true), "{} {}", a, b);
    }
}

#[test]
fn lt_is_strict() {
    for (a, b) in [(3u64, 4u64), (4, 4), (5, 4)] {
        let mut cs = new_system();
        let va = witness(&cs, ArkFr::from(a));
        let vb = witness(&cs, ArkFr::from(b));
        let bit = is_lt(&mut cs, &va, &vb, 64).unwrap();
        assert_eq!(bit.inner.value().unwrap(), a < b);
        assert!(cs.inner.is_satisfied().unwrap());
    }
}

#[test]
fn leq_bounds_the_difference() {
    let zero = ArkFr::from(0u64);
    let n = 8;
    // b - a below 2^n, or a - b up to 2^n
    assert_eq!(leq(zero, ArkFr::from(255u64), n), (true, true));
    assert!(!leq(zero, ArkFr::from(256u64), n).1);
    assert_eq!(leq(ArkFr::from(256u64), zero, n), (false, true));
    assert!(!leq(ArkFr::from(257u64), zero, n).1);
    // the operands themselves may be large
    let big = two_to(200);
    assert_eq!(leq(big, big + ArkFr::from(3u64), n), (true, true));
    assert_eq!(leq(big + ArkFr::from(3u64), big, n), (false, true));
}

#[test]
fn leq_with_no_bits() {
    let one = ArkFr::from(1u64);
    let zero = ArkFr::from(0u64);
    assert_eq!(leq(zero, zero, 0), (true, true));
    assert_eq!(leq(one, zero, 0), (false, true));
    assert!(!leq(zero, one, 0).1);
}

#[test]
fn leq_with_252_bits() {
    let a = two_to(252) - ArkFr::from(1u64);
    let b = ArkFr::from(5u64);
    assert_eq!(leq(a, b, 252), (false, true));
    assert_eq!(leq(b, a, 252), (true, true));
    assert_eq!(leq(a, a, 252), (true, true));
}

#[test]
fn leq_of_constants() {
    let mut cs = new_system();
    let bit = is_leq(&mut cs, &constant(ArkFr::from(2u64)), &constant(ArkFr::from(3u64)), 8);
    assert!(bit.unwrap().inner.value().unwrap());
    assert!(cs.inner.is_satisfied().unwrap());
    let bit = is_leq(&mut cs, &constant(ArkFr::from(2u64)), &constant(ArkFr::from(900u64)), 8);
    assert!(bit.is_ok());
    assert!(!cs.inner.is_satisfied().unwrap());
}

#[test]
fn leq_cannot_be_answered_otherwise() {
    // two operands, then nine bits
    for at in 2..11 {
        let mut cs = new_system();
        let a = witness(&cs, ArkFr::from(9u64));
        let b = witness(&cs, ArkFr::from(4u64));
        let bit = is_leq(&mut cs, &a, &b, 8).unwrap();
        assert!(!bit.inner.value().unwrap());
        assert_eq!(cs.inner.num_witness_variables(), 11);
        let old = cs.inner.borrow().unwrap().witness_assignment[at];
        cs.inner.borrow_mut().unwrap().witness_assignment[at] = ArkFr::from(1u64) - old;
        assert!(!cs.inner.is_satisfied().unwrap());
    }
}

#[test]
fn leq_needs_a_system() {
    let mut cs = ConstraintSystem { inner: ConstraintSystemRef::None };
    let a = constant(ArkFr::from(1u64));
    let b = constant(ArkFr::from(2u64));
    assert!(matches!(is_leq(&mut cs, &a, &b, 8), Err(SynthesisError::MissingCS)));
    assert!(matches!(is_lt(&mut cs, &a, &b, 8), Err(SynthesisError::MissingCS)));
}

/// A system that holds an assignment, with a variable that has no value in it.
fn system_with_a_gap() -> (ConstraintSystem, FpVar) {
    let cs = new_system();
    cs.inner.set_mode(SynthesisMode::Setup);
    let x = witness(&cs, ArkFr::from(1u64));
    cs.inner.set_mode(SynthesisMode::Prove { construct_matrices: true });
    (cs, x)
}

fn counts(cs: &ConstraintSystem) -> (usize, usize, usize) {
    let inner = &cs.inner;
    (inner.num_instance_variables(), inner.num_witness_variables(), inner.num_constraints())
}

#[test]
fn leq_of_a_variable_without_a_value() {
    let b = constant(ArkFr::from(2u64));
    for which in 0..3 {
        let (mut cs, a) = system_with_a_gap();
        let (x, y) = match which {
            0 => (&a, &b),
            1 => (&b, &a),
            _ => (&a, &a),
        };
        assert_eq!(counts(&cs), (1, 1, 0));
        let r = is_leq(&mut cs, x, y, 8);
        assert!(matches!(r, Err(SynthesisError::AssignmentMissing)));
        assert_eq!(counts(&cs), (1, 2, 0));
        let (mut cs, a) = system_with_a_gap();
        let (x, y) = match which {
            0 => (&a, &b),
            1 => (&b, &a),
            _ => (&a, &a),
        };
        let r = is_lt(&mut cs, x, y, 8);
        assert!(matches!(r, Err(SynthesisError::AssignmentMissing)));
        assert_eq!(counts(&cs), (1, 2, 0));
    }
}

#[test]
fn zero_of_a_variable_without_a_value() {
    let (mut cs, x) = system_with_a_gap();
    assert!(matches!(is_zero(&mut cs, &x), Err(SynthesisError::AssignmentMissing)));
    assert_eq!(counts(&cs), (1, 2, 0));
    let (mut cs, x) = system_with_a_gap();
    assert!(matches!(is_nonzero(&mut cs, &x), Err(SynthesisError::AssignmentMissing)));
    assert_eq!(counts(&cs), (1, 2, 0));
}

#[test]
fn gadgets_add_what_they_say() {
    for n in [0usize, 8, 64] {
        let mut cs = ConstraintSystem::new_ref();
        let a = witness(&cs, ArkFr::from(1u64));
        let b = witness(&cs, ArkFr::from(1u64));
        is_leq(&mut cs, &a, &b, n).unwrap();
        assert_eq!(cs.inner.num_instance_variables(), 1);
        assert_eq!(cs.inner.num_witness_variables(), 2 + n + 1);
        assert_eq!(cs.inner.num_constraints(), n + 2);
        is_zero(&mut cs, &a).unwrap();
        is_nonzero(&mut cs, &constant(ArkFr::from(1u64))).unwrap();
        assert_eq!(cs.inner.num_witness_variables(), 2 + n + 3);
        assert_eq!(cs.inner.num_constraints(), n + 4);
    }
}

#[test]
fn leq_in_setup_mode_has_no_values() {
    let mut cs = new_system();
    cs.inner.set_mode(SynthesisMode::Setup);
    let a = witness(&cs, ArkFr::from(1u64));
    let b = witness(&cs, ArkFr::from(2u64));
    let bit = is_leq(&mut cs, &a, &b, 8).unwrap();
    assert!(matches!(bit.inner.value(), Err(SynthesisError::AssignmentMissing)));
    // nine bits and their sum
    assert_eq!(cs.inner.num_constraints(), 10);
}

#[test]
fn powers_of_two() {
    for n in [0usize, 1, 8, 63, 64, 128, 253, 254, 300] {
        let expected = two_to(n as u64).into_bigint().0;
        assert_eq!(Fr::pow2(n).limbs, expected);
    }
    assert_eq!(Fr::pow2(64).limbs, [0, 1, 0, 0]);
    assert_eq!(Fr::pow2(128).limbs, [0, 0, 1, 0]);
}

#[test]
fn one_is_one() {
    assert!(Fr::one().is_one());
    assert!(!Fr::zero().is_one());
    assert!(!Fr { limbs: [1, 1, 0, 0] }.is_one());
    assert!(!Fr { limbs: [2, 0, 0, 0] }.is_one());
}
