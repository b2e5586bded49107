use ark_bn254::Fr as ArkFr;
use ark_ff::{BigInt, PrimeField};
use ark_r1cs_std::alloc::{AllocVar, AllocationMode};
use ark_r1cs_std::fields::fp::FpVar as ArkFpVar;
use ark_r1cs_std::R1CSVar;
use ark_relations::r1cs::{ConstraintSystemRef, SynthesisError, SynthesisMode};
use zk_data_quality::circuit::{
    fp_to_bool, has_prev_to_bool, DataQualityStepCircuit, OrderInputs, OrderInputsVar,
};
use zk_data_quality::field::Fr;
use zk_data_quality::fold::{initial_state, run_step as run_plain_step};
use zk_data_quality::orders::synthetic_orders;
use zk_data_quality::otm::FIELDS_PER_ORDER;
use zk_data_quality::quality::{STATE_LEN, STEP_CONSTRAINTS, STEP_WITNESSES};
use zk_data_quality::r1cs::{ConstraintSystem, FpVar};

fn to_ark(x: &Fr) -> ArkFr {
    ArkFr::from_bigint(BigInt(x.limbs)).unwrap()
}

fn from_ark(x: &ArkFr) -> Fr {
    Fr { limbs: x.into_bigint().0 }
}

fn wrap(vars: Vec<ArkFpVar<ArkFr>>) -> Vec<FpVar> {
    vars.into_iter().map(|inner| FpVar { inner }).collect()
}

fn new_system() -> ConstraintSystem {
    ConstraintSystem { inner: ark_relations::r1cs::ConstraintSystem::<ArkFr>::new_ref() }
}

fn fresh_state() -> Vec<ArkFr> {
    let mut z = vec![ArkFr::from(0u64); STATE_LEN];
    z[0] = ArkFr::from(1u64); // valid
    z[2] = ArkFr::from(1u64); // pw = r^0
    z[3] = ArkFr::from(0x5eedu64); // r
    z[7] = ArkFr::from(0u64); // t_min
    z[8] = ArkFr::from(u64::MAX / 2); // t_max
    z
}

fn good_order() -> Vec<ArkFr> {
    synthetic_orders(1)[0].flatten_field().iter().map(to_ark).collect()
}

/// Run one step on `ext_vals` from a fresh z_0 and return (valid_bit, cs_satisfied).
fn run_step(ext_vals: Vec<ArkFr>) -> (ArkFr, bool) {
    let mut cs = new_system();
    let z = fresh_state();
    let z_in = wrap(Vec::<ArkFpVar<ArkFr>>::new_witness(cs.inner.clone(), || Ok(z)).unwrap());
    let ext = wrap(Vec::<ArkFpVar<ArkFr>>::new_witness(cs.inner.clone(), || Ok(ext_vals)).unwrap());
    let circuit = DataQualityStepCircuit::<Fr>::new();
    let z_out = circuit.step(&mut cs, &z_in, &ext).unwrap();
    let valid = z_out[0].inner.value().unwrap();
    (valid, cs.inner.is_satisfied().unwrap())
}

#[test]
fn good_order_is_valid() {
    let ext = good_order();
    let (valid, satisfied) = run_step(ext);
    assert!(satisfied, "constraint system must be satisfiable");
    assert_eq!(valid, ArkFr::from(1u64), "a well-formed order must validate");
}

#[test]
fn bad_action_type_is_invalid() {
    let mut ext = good_order();
    // index 4 = first action's action_type; 7 is outside the allowed {1,2,3}
    ext[4] = ArkFr::from(7u64);
    let (valid, satisfied) = run_step(ext);
    assert!(satisfied, "system stays satisfiable; validity is computed not forced");
    assert_eq!(valid, ArkFr::from(0u64), "an illegal action_type must fail validation");
}

#[test]
fn overweight_order_is_invalid() {
    let mut ext = good_order();
    // index 2 = vehicle capacity; shrink it below the goods' total weight
    ext[2] = ArkFr::from(1u64);
    let (valid, _satisfied) = run_step(ext);
    assert_eq!(valid, ArkFr::from(0u64), "exceeding capacity must fail validation");
}

/// One step over the first order of the data set with some fields replaced, from the initial
/// state: the verdict and whether the constraints are met.
fn verdict(changes: &[(usize, u64)]) -> (bool, bool) {
    let mut ext = synthetic_orders(1)[0].flatten_field();
    for (at, value) in changes {
        ext[*at] = from_ark(&ArkFr::from(*value));
    }
    let z = initial_state(0x5eed, 0, u64::MAX / 2);
    let (out, satisfied) = run_plain_step(&z, &ext).unwrap();
    (out[0].is_one(), satisfied)
}

#[test]
fn ids_must_not_be_zero() {
    // order, vehicle, capacity, last action, its location, last good
    for at in [0, 1, 2, 3 + 7 * 7, 3 + 7 * 7 + 4, 59 + 3 * 7] {
        assert_eq!(verdict(&[(at, 0)]), (false, true), "field {}", at);
    }
}

#[test]
fn quantity_and_weight_must_not_be_zero() {
    assert_eq!(verdict(&[(60, 0)]), (false, true));
    assert_eq!(verdict(&[(61, 0)]), (false, true));
}

#[test]
fn action_types_one_to_three_pass() {
    for t in 1..=3 {
        assert_eq!(verdict(&[(4, t)]), (true, true));
    }
    assert_eq!(verdict(&[(4, 0)]), (false, true));
    assert_eq!(verdict(&[(4, 4)]), (false, true));
}

#[test]
fn action_must_end_after_its_start() {
    // the first action starts at 0 and ends at 50
    assert_eq!(verdict(&[(5, 49)]), (true, true));
    assert_eq!(verdict(&[(5, 50)]), (false, true));
    assert_eq!(verdict(&[(5, 51)]), (false, true));
}

#[test]
fn action_must_lie_in_the_time_window() {
    assert_eq!(verdict(&[(6, u64::MAX / 2)]), (true, true));
    assert_eq!(verdict(&[(6, u64::MAX / 2 + 1)]), (false, true));
    let z = initial_state(0x5eed, 1, u64::MAX / 2);
    let ext = synthetic_orders(1)[0].flatten_field();
    let (out, satisfied) = run_plain_step(&z, &ext).unwrap();
    assert!(!out[0].is_one(), "the first action starts before the window");
    assert!(satisfied);
}

#[test]
fn locations_have_bounds() {
    assert_eq!(verdict(&[(8, 90_000_000)]), (true, true));
    assert_eq!(verdict(&[(8, 90_000_001)]), (false, true));
    assert_eq!(verdict(&[(9, 180_000_000)]), (true, true));
    assert_eq!(verdict(&[(9, 180_000_001)]), (false, true));
}

#[test]
fn load_may_reach_the_capacity() {
    // the goods weigh 13_190_000
    assert_eq!(verdict(&[(2, 13_190_000)]), (true, true));
    assert_eq!(verdict(&[(2, 13_189_999)]), (false, true));
}

#[test]
fn largest_load_is_invalid_and_meets_the_constraints() {
    // all quantities and weights as large as they can be
    let mut huge: Vec<(usize, u64)> = vec![(2, 1)];
    for k in 0..8 {
        huge.push((60 + 3 * k, u64::MAX));
        huge.push((61 + 3 * k, u64::MAX));
    }
    assert_eq!(verdict(&huge), (false, true));
    assert_eq!(verdict(&huge[1..3]), (false, true));
}

#[test]
fn any_record_meets_the_constraints() {
    for value in [0, 1, u64::MAX / 2, u64::MAX] {
        let all: Vec<(usize, u64)> = (0..FIELDS_PER_ORDER).map(|at| (at, value)).collect();
        assert_eq!(verdict(&all), (false, true));
    }
}

#[test]
fn verdict_and_marker_are_held_to_zero_or_one() {
    let ext = synthetic_orders(1)[0].flatten_field();
    for at in [0, 6] {
        for (value, met) in [(0u64, true), (1, true), (2, false), (u64::MAX, false)] {
            let mut z = initial_state(0x5eed, 0, u64::MAX / 2);
            z[at] = from_ark(&ArkFr::from(value));
            let (_, satisfied) = run_plain_step(&z, &ext).unwrap();
            assert_eq!(satisfied, met, "element {} is {}", at, value);
        }
    }
}

#[test]
fn flags_are_read_alike() {
    for (value, flag, met) in [(0u64, false, true), (1, true, true), (2, false, false)] {
        for constant in [false, true] {
            for prev in [false, true] {
                let mut cs = new_system();
                let value = ArkFr::from(value);
                let anchor = ArkFpVar::new_witness(cs.inner.clone(), || Ok(ArkFr::from(5u64)));
                let anchor = FpVar { inner: anchor.unwrap() };
                let x = if constant {
                    ArkFpVar::new_constant(cs.inner.clone(), value)
                } else {
                    ArkFpVar::new_witness(cs.inner.clone(), || Ok(value))
                };
                let x = FpVar { inner: x.unwrap() };
                let bit = if prev {
                    has_prev_to_bool(&mut cs, &x, &anchor).unwrap()
                } else {
                    fp_to_bool(&mut cs, &x, &anchor).unwrap()
                };
                assert_eq!(bit.inner.value().unwrap(), flag);
                assert_eq!(cs.inner.is_satisfied().unwrap(), met);
            }
        }
    }
}

#[test]
fn constants_are_held_to_zero_or_one() {
    for (value, met) in [(1u64, true), (2, false)] {
        let mut cs = ConstraintSystem::new_ref();
        let mut state = OrderInputs(initial_state(0x5eed, 0, u64::MAX / 2));
        state.0[0] = from_ark(&ArkFr::from(value));
        let z_in =
            OrderInputsVar::new_variable(&mut cs, Ok(state), AllocationMode::Constant).unwrap();
        let order = OrderInputs(synthetic_orders(1)[0].flatten_field());
        let ext =
            OrderInputsVar::new_variable(&mut cs, Ok(order), AllocationMode::Witness).unwrap();
        let circuit = DataQualityStepCircuit::<Fr>::new();
        circuit.step(&mut cs, &z_in.0, &ext.0).unwrap();
        assert_eq!(cs.inner.is_satisfied().unwrap(), met);
    }
}

#[test]
fn state_after_one_step() {
    let z = initial_state(0x5eed, 0, u64::MAX / 2);
    let ext = synthetic_orders(1)[0].flatten_field();
    let (out, satisfied) = run_plain_step(&z, &ext).unwrap();
    assert!(satisfied);
    let r = ArkFr::from(0x5eedu64);
    let mut phi = ArkFr::from(0u64);
    let mut pw = ArkFr::from(1u64);
    for x in &ext {
        phi += pw * to_ark(x);
        pw *= r;
    }
    let expected = [
        ArkFr::from(1u64),
        phi,
        pw,
        r,
        ArkFr::from(1u64),   // vehicle
        ArkFr::from(750u64), // end of the last action
        ArkFr::from(1u64),
        ArkFr::from(0u64),
        ArkFr::from(u64::MAX / 2),
    ];
    assert_eq!(out.len(), STATE_LEN);
    for i in 0..STATE_LEN {
        assert_eq!(to_ark(&out[i]), expected[i], "element {}", i);
    }
}

#[test]
fn latest_end_and_earliest_start_are_found_in_any_place() {
    // action 2 ends last and action 5 starts first, before the order before has ended
    let mut ext = synthetic_orders(1)[0].flatten_field();
    ext[3 + 7 * 2 + 3] = from_ark(&ArkFr::from(9_000u64));
    for k in 0..8 {
        ext[3 + 7 * k + 2] = from_ark(&ArkFr::from(40u64));
    }
    ext[3 + 7 * 5 + 2] = from_ark(&ArkFr::from(20u64));
    let mut z = initial_state(0x5eed, 0, u64::MAX / 2);
    z[4] = from_ark(&ArkFr::from(1u64));
    z[6] = Fr::one();
    for (prev_end, passes) in [(20u64, true), (21u64, false)] {
        z[5] = from_ark(&ArkFr::from(prev_end));
        let (out, satisfied) = run_plain_step(&z, &ext).unwrap();
        assert!(satisfied);
        assert_eq!(out[0].is_one(), passes);
        assert_eq!(to_ark(&out[5]), ArkFr::from(9_000u64));
    }
}

#[test]
fn adjacency_counts_only_for_the_same_vehicle_and_a_previous_order() {
    let ext = synthetic_orders(1)[0].flatten_field();
    let late = from_ark(&ArkFr::from(1u64));
    for (vehicle, has_prev, passes) in
        [(1u64, 1u64, false), (2, 1, true), (1, 0, true), (2, 0, true)]
    {
        let mut z = initial_state(0x5eed, 0, u64::MAX / 2);
        z[4] = from_ark(&ArkFr::from(vehicle));
        z[5] = late;
        z[6] = from_ark(&ArkFr::from(has_prev));
        let (out, satisfied) = run_plain_step(&z, &ext).unwrap();
        assert!(satisfied);
        assert_eq!(out[0].is_one(), passes, "vehicle {} has_prev {}", vehicle, has_prev);
    }
}

#[test]
fn verdict_never_returns_to_one() {
    let orders = synthetic_orders(3);
    let mut z = initial_state(0x5eed, 0, u64::MAX / 2);
    let mut verdicts: Vec<bool> = Vec::new();
    for (i, o) in orders.iter().enumerate() {
        let mut ext = o.flatten_field();
        if i == 1 {
            ext[4] = Fr::zero();
        }
        let (out, satisfied) = run_plain_step(&z, &ext).unwrap();
        assert!(satisfied);
        verdicts.push(out[0].is_one());
        z = out;
    }
    assert_eq!(verdicts, vec![true, false, false]);
}

#[test]
fn constraints_do_not_depend_on_the_values() {
    let mut matrices = Vec::new();
    for (setup, capacity) in [(false, 40_000_000u64), (false, 1), (true, 40_000_000)] {
        let mut cs = new_system();
        if setup {
            cs.inner.set_mode(SynthesisMode::Setup);
        }
        let mut order = OrderInputs(synthetic_orders(1)[0].flatten_field());
        order.0[2] = from_ark(&ArkFr::from(capacity));
        let ext =
            OrderInputsVar::new_variable(&mut cs, Ok(order), AllocationMode::Witness).unwrap();
        let state = OrderInputs(initial_state(0x5eed, 0, u64::MAX / 2));
        let z_in =
            OrderInputsVar::new_variable(&mut cs, Ok(state), AllocationMode::Input).unwrap();
        let circuit = DataQualityStepCircuit::<Fr>::new();
        let z_out = circuit.clone().step(&mut cs, &z_in.0, &ext.0).unwrap();
        assert_eq!(z_out.len(), STATE_LEN);
        assert_eq!(z_out[1].inner.value().is_ok(), !setup);
        assert_eq!(cs.inner.num_instance_variables(), 1 + STATE_LEN);
        assert_eq!(cs.inner.num_witness_variables(), FIELDS_PER_ORDER + STEP_WITNESSES);
        assert_eq!(cs.inner.num_constraints(), STEP_CONSTRAINTS);
        cs.inner.finalize();
        matrices.push(cs.inner.to_matrices().unwrap());
    }
    assert!(matrices[0] == matrices[1]);
    assert!(matrices[0] == matrices[2]);
}

#[test]
fn another_verdict_meets_no_constraints() {
    let mut cs = new_system();
    let mut ext_vals = good_order();
    ext_vals[4] = ArkFr::from(7u64);
    let z_in =
        wrap(Vec::<ArkFpVar<ArkFr>>::new_witness(cs.inner.clone(), || Ok(fresh_state())).unwrap());
    let ext = wrap(Vec::<ArkFpVar<ArkFr>>::new_witness(cs.inner.clone(), || Ok(ext_vals)).unwrap());
    let circuit = DataQualityStepCircuit::<Fr>::new();
    let z_out = circuit.step(&mut cs, &z_in, &ext).unwrap();
    assert!(cs.inner.is_satisfied().unwrap());
    assert_eq!(z_out[0].inner.value().unwrap(), ArkFr::from(0u64));
    // the verdict is the last variable that the step allocates
    let last = cs.inner.num_witness_variables() - 1;
    cs.inner.borrow_mut().unwrap().witness_assignment[last] = ArkFr::from(1u64);
    assert!(!cs.inner.is_satisfied().unwrap());
}

#[test]
fn step_needs_a_system() {
    let mut cs = ConstraintSystem { inner: ConstraintSystemRef::None };
    let state = OrderInputs(initial_state(0x5eed, 0, u64::MAX / 2));
    let z_in = OrderInputsVar::new_variable(&mut cs, Ok(state), AllocationMode::Constant).unwrap();
    let order = OrderInputs(synthetic_orders(1)[0].flatten_field());
    let ext = OrderInputsVar::new_variable(&mut cs, Ok(order), AllocationMode::Constant).unwrap();
    let circuit = DataQualityStepCircuit::<Fr>::new();
    let r = circuit.step(&mut cs, &z_in.0, &ext.0);
    assert!(matches!(r, Err(SynthesisError::MissingCS)));
}

#[test]
fn step_takes_constants() {
    let mut cs = new_system();
    let state = OrderInputs(initial_state(0x5eed, 0, u64::MAX / 2));
    let z_in = OrderInputsVar::new_variable(&mut cs, Ok(state), AllocationMode::Constant).unwrap();
    let order = OrderInputs(synthetic_orders(1)[0].flatten_field());
    let ext = OrderInputsVar::new_variable(&mut cs, Ok(order), AllocationMode::Constant).unwrap();
    let circuit = DataQualityStepCircuit::<Fr>::new();
    let z_out = circuit.step(&mut cs, &z_in.0, &ext.0).unwrap();
    assert_eq!(z_out[0].inner.value().unwrap(), ArkFr::from(1u64));
    assert!(cs.inner.is_satisfied().unwrap());
}

#[test]
fn order_inputs_are_allocated_in_order() {
    let order = OrderInputs(synthetic_orders(2)[1].flatten_field());
    for mode in [AllocationMode::Constant, AllocationMode::Input, AllocationMode::Witness] {
        let mut cs = new_system();
        let vars = OrderInputsVar::new_variable(&mut cs, Ok(order.clone()), mode).unwrap();
        assert_eq!(vars.0.len(), FIELDS_PER_ORDER);
        for i in 0..FIELDS_PER_ORDER {
            assert_eq!(vars.0[i].inner.value().unwrap(), to_ark(&order.0[i]));
        }
        let counts = (cs.inner.num_instance_variables(), cs.inner.num_witness_variables());
        let expected = match mode {
            AllocationMode::Constant => (1, 0),
            AllocationMode::Input => (1 + FIELDS_PER_ORDER, 0),
            AllocationMode::Witness => (1, FIELDS_PER_ORDER),
        };
        assert_eq!(counts, expected);
    }
}

#[test]
fn order_inputs_pass_errors_on() {
    let mut cs = new_system();
    let r = OrderInputsVar::new_variable(
        &mut cs,
        Err(SynthesisError::AssignmentMissing),
        AllocationMode::Witness,
    );
    assert!(matches!(r, Err(SynthesisError::AssignmentMissing)));
    assert_eq!(cs.inner.num_witness_variables(), 0);
    let mut none = ConstraintSystem { inner: ConstraintSystemRef::None };
    let r = OrderInputsVar::new_variable(
        &mut none,
        Ok(OrderInputs::default()),
        AllocationMode::Witness,
    );
    assert!(matches!(r, Err(SynthesisError::MissingCS)));
    let empty =
        OrderInputsVar::new_variable(&mut none, Ok(OrderInputs(vec![])), AllocationMode::Witness);
    assert_eq!(empty.unwrap().0.len(), 0);
}

#[test]
fn default_order_is_all_zero() {
    let order = OrderInputs::<Fr>::default();
    assert_eq!(order.0, vec![Fr::zero(); FIELDS_PER_ORDER]);
}

#[test]
fn times_of_more_than_64_bits_are_not_accepted() {
    let z = initial_state(0x5eed, 0, u64::MAX / 2);
    let one = ArkFr::from(1u64);
    let two_64 = ArkFr::from(u64::MAX) + one;
    for time in [-one, -two_64, two_64, two_64 + two_64, two_64 * two_64] {
        for at in [5, 6] {
            let mut ext = synthetic_orders(1)[0].flatten_field();
            ext[at] = from_ark(&time);
            let (out, satisfied) = run_plain_step(&z, &ext).unwrap();
            assert!(!(out[0].is_one() && satisfied));
        }
    }
}

#[test]
fn coordinates_are_taken_to_be_64_bit_integers() {
    let z = initial_state(0x5eed, 0, u64::MAX / 2);
    let mut ext = synthetic_orders(1)[0].flatten_field();
    ext[8] = from_ark(&-ArkFr::from(1u64));
    let (out, satisfied) = run_plain_step(&z, &ext).unwrap();
    assert!(out[0].is_one() && satisfied);
}
