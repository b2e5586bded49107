use std::str::FromStr;

use ark_bn254::Fr as ArkFr;
use ark_ff::{BigInt, PrimeField};
use zk_data_quality::field::Fr;
use zk_data_quality::fold::{external_inputs, initial_state, run_step};
use zk_data_quality::orders::synthetic_orders;
use zk_data_quality::otm::{
    Action, Good, Location, TransportOrder, Vehicle, ACTION_LOAD, ACTION_UNLOAD, ACTION_WAYPOINT,
    FIELDS_PER_ORDER, MAX_ACTIONS, MAX_GOODS,
};

fn to_ark(x: &Fr) -> ArkFr {
    ArkFr::from_bigint(BigInt(x.limbs)).unwrap()
}

/// An order of which all fields differ.
fn numbered_order(active: bool) -> TransportOrder {
    let action = |k: u64| Action {
        id: 100 * k + 1,
        active,
        location: Location { id: 100 * k + 5, longitude: 100 * k + 7, latitude: 100 * k + 6 },
        start_time: 100 * k + 3,
        end_time: 100 * k + 4,
        action_type: 100 * k + 2,
    };
    let good = |k: u64| Good { id: 1000 * k, active, weight: 1000 * k + 2, quantity: 1000 * k + 1 };
    TransportOrder {
        id: 11,
        active,
        vehicle: Vehicle { id: 12, capacity: 13 },
        actions: [
            action(1),
            action(2),
            action(3),
            action(4),
            action(5),
            action(6),
            action(7),
            action(8),
        ],
        goods: [good(1), good(2), good(3), good(4), good(5), good(6), good(7), good(8)],
    }
}

#[test]
fn constants_of_the_layout() {
    assert_eq!((MAX_ACTIONS, MAX_GOODS, FIELDS_PER_ORDER), (8, 8, 83));
    assert_eq!((ACTION_LOAD, ACTION_UNLOAD, ACTION_WAYPOINT), (1, 2, 3));
}

#[test]
fn flat_form_has_every_field_in_its_place() {
    let mut expected: Vec<u64> = vec![11, 12, 13];
    for k in 1..=8 {
        for j in 1..=7 {
            expected.push(100 * k + j);
        }
    }
    for k in 1..=8 {
        for j in 0..3 {
            expected.push(1000 * k + j);
        }
    }
    assert_eq!(numbered_order(true).flatten(), expected);
}

#[test]
fn flat_form_leaves_out_what_is_active() {
    assert_eq!(numbered_order(true).flatten(), numbered_order(false).flatten());
    assert_eq!(numbered_order(true).flatten().len(), FIELDS_PER_ORDER);
}

#[test]
fn flat_form_as_field_elements() {
    let o = numbered_order(true);
    let expected: Vec<Fr> = o.flatten().iter().map(|x| Fr { limbs: [*x, 0, 0, 0] }).collect();
    assert_eq!(o.flatten_field(), expected);
}

#[test]
fn large_fields_are_kept() {
    let mut o = numbered_order(true);
    o.goods[7].weight = u64::MAX;
    let flat = o.flatten_field();
    assert_eq!(flat[82].limbs, [u64::MAX, 0, 0, 0]);
}

#[test]
fn data_set_of_no_orders() {
    assert_eq!(synthetic_orders(0).len(), 0);
    assert_eq!(external_inputs(&synthetic_orders(0)).len(), 0);
}

#[test]
fn data_set_holds_what_it_says() {
    let orders = synthetic_orders(7);
    assert_eq!(orders.len(), 7);
    let o = &orders[6];
    assert_eq!((o.id, o.active, o.vehicle.id, o.vehicle.capacity), (7, true, 2, 40_000_000));
    for k in 0..8 {
        let a = &o.actions[k];
        assert_eq!((a.id, a.active, a.action_type), (1 + k as u64, true, ACTION_LOAD));
        assert_eq!(a.start_time, 60_000 + 100 * k as u64);
        assert_eq!(a.end_time, 60_050 + 100 * k as u64);
        assert_eq!((a.location.id, a.location.latitude), (1, 52_241_327));
        assert_eq!(a.location.longitude, 6_852_094);
    }
    let load: u64 = o.goods.iter().map(|g| g.weight * g.quantity).sum();
    assert_eq!(load, 13_190_000);
    let goods: Vec<(u64, u64, u64)> =
        o.goods.iter().map(|g| (g.id, g.weight, g.quantity)).collect();
    assert_eq!(goods[0], (1, 1_000_000, 10));
    assert_eq!(goods[1], (2, 500_000, 5));
    assert_eq!(goods[2], (3, 250_000, 2));
    assert_eq!(goods[7], (8, 5_000, 1));
    assert!(o.goods.iter().all(|g| g.active));
}

#[test]
fn inputs_of_a_fold_are_the_flat_orders() {
    let orders = synthetic_orders(4);
    let inputs = external_inputs(&orders);
    assert_eq!(inputs.len(), 4);
    for i in 0..4 {
        assert_eq!(inputs[i].0, orders[i].flatten_field());
    }
}

#[test]
fn initial_state_is_fresh() {
    let z = initial_state(7, 8, u64::MAX);
    let expected: Vec<Fr> = [1, 0, 1, 7, 0, 0, 0, 8, u64::MAX]
        .iter()
        .map(|x| Fr { limbs: [*x, 0, 0, 0] })
        .collect();
    assert_eq!(z, expected);
}

/// The polynomial of all fields of the first `n` orders at `r`.
fn fingerprint_of(n: usize, r: u64) -> ArkFr {
    let r = ArkFr::from(r);
    let mut phi = ArkFr::from(0u64);
    let mut pw = ArkFr::from(1u64);
    for input in external_inputs(&synthetic_orders(n)) {
        for x in &input.0 {
            phi += pw * to_ark(x);
            pw *= r;
        }
    }
    phi
}

#[test]
fn fingerprint_of_a_thousand_orders() {
    let phi = "18918949578341787243231063113255628687147046740496992278699480789861135955774";
    assert_eq!(fingerprint_of(1000, 0x5eed), ArkFr::from_str(phi).unwrap());
}

#[test]
fn fold_of_six_orders_passes() {
    let inputs = external_inputs(&synthetic_orders(6));
    let mut z = initial_state(0x5eed, 0, u64::MAX / 2);
    for ext in &inputs {
        let (out, satisfied) = run_step(&z, &ext.0).unwrap();
        assert!(satisfied);
        z = out;
    }
    assert!(z[0].is_one());
    let phi = "10255911196473805806381370175389199309648270515392741337869511187562988613676";
    assert_eq!(to_ark(&z[1]), ArkFr::from_str(phi).unwrap());
    assert_eq!(to_ark(&z[1]), fingerprint_of(6, 0x5eed));
    let pw = "4002156458977645956884983569589640356117799332641084340852338959557486014297";
    assert_eq!(to_ark(&z[2]), ArkFr::from_str(pw).unwrap());
    let rest: Vec<u64> = z[3..].iter().map(|x| x.limbs[0]).collect();
    assert_eq!(rest, vec![0x5eed, 1, 50_750, 1, 0, u64::MAX / 2]);
}

/// A fold over orders of one vehicle whose time windows start at the given times: the verdict.
fn fold_at(vehicles_and_starts: &[(u64, u64)]) -> bool {
    let mut z = initial_state(3, 0, u64::MAX / 2);
    for (vehicle, start) in vehicles_and_starts {
        let mut o = synthetic_orders(1).remove(0);
        o.vehicle.id = *vehicle;
        for a in &mut o.actions {
            a.start_time += start;
            a.end_time += start;
        }
        let (out, satisfied) = run_step(&z, &o.flatten_field()).unwrap();
        assert!(satisfied);
        z = out;
    }
    z[0].is_one()
}

#[test]
fn sorted_orders_that_overlap_are_found() {
    // each order lasts for 750
    assert!(fold_at(&[(1, 0), (1, 750), (2, 0), (2, 800)]));
    assert!(!fold_at(&[(1, 0), (1, 749), (2, 0), (2, 800)]));
    assert!(!fold_at(&[(1, 0), (1, 750), (2, 0), (2, 700)]));
}

#[test]
fn overlaps_are_missed_where_the_orders_are_not_sorted() {
    assert!(fold_at(&[(1, 0), (2, 0), (1, 10)]));
}
