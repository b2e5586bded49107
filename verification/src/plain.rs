//! The laws in plain terms. Each says what an operation gives, field by field and number by
//! number, on all inputs, without the vocabulary that the contracts are written in. So they also
//! say what that vocabulary means.
use vstd::prelude::*;
use vstd::arithmetic::div_mod::*;
use vstd::arithmetic::mul::*;
use vstd::arithmetic::power::*;
use vstd::arithmetic::power2::*;
use crate::circuit;
use crate::field;
use crate::field::Fr;
use crate::fold;
use crate::gadgets;
use crate::laws;
use crate::orders;
use crate::otm::{
    TransportOrder, ACTION_LOAD, ACTION_UNLOAD, ACTION_WAYPOINT, FIELDS_PER_ORDER, MAX_ACTIONS,
    MAX_GOODS,
};
use crate::quality;
use crate::quality::{
    MAX_LATITUDE, MAX_LONGITUDE, STATE_LEN, STEP_CONSTRAINTS, STEP_WITNESSES, SUM_BITS, TIME_BITS,
};
use crate::r1cs;
use crate::r1cs::{Boolean, ConstraintSystem, FpVar};

verus! {

// ---- orders ------------------------------------------------------------------------------

/// An order has 83 fields: three of its own, then seven of each of eight actions, the latitude
/// before the longitude, then three of each of eight goods, the quantity before the weight.
/// Its elements are these fields, place by place.
pub proof fn flat_form_by_name(o: TransportOrder)
    ensures
        o.flat().len() == 83,
        o.elements().len() == 83,
        forall|i: int| 0 <= i < 83 ==> #[trigger] o.elements()[i] == o.flat()[i],
        o.flat()[0] == o.id,
        o.flat()[1] == o.vehicle.id,
        o.flat()[2] == o.vehicle.capacity,
        forall|k: int|
            0 <= k < 8 ==> {
                let a = #[trigger] o.actions@[k];
                &&& o.flat()[3 + 7 * k] == a.id
                &&& o.flat()[3 + 7 * k + 1] == a.action_type
                &&& o.flat()[3 + 7 * k + 2] == a.start_time
                &&& o.flat()[3 + 7 * k + 3] == a.end_time
                &&& o.flat()[3 + 7 * k + 4] == a.location.id
                &&& o.flat()[3 + 7 * k + 5] == a.location.latitude
                &&& o.flat()[3 + 7 * k + 6] == a.location.longitude
            },
        forall|k: int|
            0 <= k < 8 ==> {
                let g = #[trigger] o.goods@[k];
                &&& o.flat()[59 + 3 * k] == g.id
                &&& o.flat()[59 + 3 * k + 1] == g.quantity
                &&& o.flat()[59 + 3 * k + 2] == g.weight
            },
{
    o.lemma_flat_by_name();
}

/// To mark an order, an action or a good as active or not changes nothing in the flat form:
/// orders that agree in all else have the same one.
pub proof fn flat_form_ignores_active(a: TransportOrder, b: TransportOrder)
    requires
        a.id == b.id,
        a.vehicle == b.vehicle,
        forall|k: int|
            0 <= k < 8 ==> {
                let x = #[trigger] a.actions@[k];
                let y = b.actions@[k];
                &&& x.id == y.id
                &&& x.location == y.location
                &&& x.start_time == y.start_time
                &&& x.end_time == y.end_time
                &&& x.action_type == y.action_type
            },
        forall|k: int|
            0 <= k < 8 ==> {
                let x = #[trigger] a.goods@[k];
                let y = b.goods@[k];
                x.id == y.id && x.weight == y.weight && x.quantity == y.quantity
            },
    ensures
        a.flat() == b.flat(),
        a.elements() == b.elements(),
{
    a.lemma_flat_by_name();
    b.lemma_flat_by_name();
    assert forall|i: int| 0 <= i < 83 implies a.flat()[i] == b.flat()[i] by {
        if 3 <= i < 59 {
            let k = (i - 3) / 7;
            let j = (i - 3) % 7;
            assert(i == 3 + 7 * k + j && 0 <= k < 8 && 0 <= j < 7);
            assert(a.actions@[k].id == b.actions@[k].id);
            assert(j == 0 || j == 1 || j == 2 || j == 3 || j == 4 || j == 5 || j == 6);
        } else if 59 <= i {
            let k = (i - 59) / 3;
            let j = (i - 59) % 3;
            assert(i == 59 + 3 * k + j && 0 <= k < 8 && 0 <= j < 3);
            assert(a.goods@[k].id == b.goods@[k].id);
            assert(j == 0 || j == 1 || j == 2);
        }
    }
    assert(a.flat() =~= b.flat());
    assert(a.elements() =~= b.elements());
}

/// The numbers that orders, states and steps are made with.
pub proof fn layout_numbers()
    ensures
        MAX_ACTIONS == 8,
        MAX_GOODS == 8,
        FIELDS_PER_ORDER == 83,
        STATE_LEN == 9,
        ACTION_LOAD == 1,
        ACTION_UNLOAD == 2,
        ACTION_WAYPOINT == 3,
        MAX_LATITUDE == 90_000_000,
        MAX_LONGITUDE == 180_000_000,
        TIME_BITS == 64,
        SUM_BITS == 131,
        STEP_WITNESSES == 4056,
        STEP_CONSTRAINTS == 4114,
{
}

// ---- the data set ------------------------------------------------------------------------

/// Every order of the data set, and every action and good of it, is active.
pub proof fn data_set_is_active(o: TransportOrder, i: nat)
    requires
        orders::is_synthetic(o, i),
    ensures
        o.active,
        forall|k: int| 0 <= k < 8 ==> (#[trigger] o.actions@[k]).active,
        forall|k: int| 0 <= k < 8 ==> (#[trigger] o.goods@[k]).active,
{
    assert forall|k: int| 0 <= k < 8 implies (#[trigger] o.actions@[k]).active by {
        assert(o.actions@[k] == orders::synthetic_action(i * 10_000, k as nat));
    }
}

/// What order `i` of the data set holds, by name.
pub proof fn data_set_by_name(o: TransportOrder, i: nat)
    requires
        orders::is_synthetic(o, i),
        i * 10_000 + 750 <= u64::MAX,
    ensures
        o.id == i + 1,
        o.vehicle.id == i % 5 + 1,
        o.vehicle.capacity == 40_000_000,
        forall|k: int|
            0 <= k < 8 ==> {
                let a = #[trigger] o.actions@[k];
                &&& a.id == k + 1
                &&& a.action_type == 1
                &&& a.start_time == 10_000 * i + 100 * k
                &&& a.end_time == a.start_time + 50
                &&& a.location.id == 1
                &&& a.location.latitude == 52_241_327
                &&& a.location.longitude == 6_852_094
            },
        forall|k: int| 0 <= k < 8 ==> (#[trigger] o.goods@[k]).id == k + 1,
        o.goods@[0].weight == 1_000_000 && o.goods@[0].quantity == 10,
        o.goods@[1].weight == 500_000 && o.goods@[1].quantity == 5,
        o.goods@[2].weight == 250_000 && o.goods@[2].quantity == 2,
        o.goods@[3].weight == 100_000 && o.goods@[3].quantity == 1,
        o.goods@[4].weight == 50_000 && o.goods@[4].quantity == 1,
        o.goods@[5].weight == 25_000 && o.goods@[5].quantity == 1,
        o.goods@[6].weight == 10_000 && o.goods@[6].quantity == 1,
        o.goods@[7].weight == 5_000 && o.goods@[7].quantity == 1,
{
    assert forall|k: int| 0 <= k < 8 implies #[trigger] o.actions@[k]
        == orders::synthetic_action(i * 10_000, k as nat) by {}
}

/// The orders of the data set have disjoint time windows, one after the other: every action of
/// an earlier order has ended when any action of a later one starts. So no two of its orders
/// overlap, whatever their vehicles. Their ids rise with them, and two orders have the same
/// vehicle if and only if they are a multiple of five apart.
pub proof fn data_set_windows_are_disjoint(a: TransportOrder, i: nat, b: TransportOrder, j: nat)
    requires
        orders::is_synthetic(a, i),
        orders::is_synthetic(b, j),
        i < j,
        j * 10_000 + 750 <= u64::MAX,
    ensures
        forall|k: int, l: int|
            0 <= k < 8 && 0 <= l < 8 ==> (#[trigger] a.actions@[k]).end_time < (
            #[trigger] b.actions@[l]).start_time,
        laws::last_end(a) <= laws::first_start(b),
        !laws::overlap(a, b),
        b.id - a.id == j - i,
        a.vehicle.id == b.vehicle.id <==> (j - i) % 5 == 0,
{
    data_set_by_name(a, i);
    data_set_by_name(b, j);
    laws::span_is_exact(a);
    laws::span_is_exact(b);
    assert forall|k: int, l: int| 0 <= k < 8 && 0 <= l < 8 implies (
    #[trigger] a.actions@[k]).end_time < (#[trigger] b.actions@[l]).start_time by {
        assert(a.actions@[k].end_time == 10_000 * i + 100 * k + 50);
        assert(b.actions@[l].start_time == 10_000 * j + 100 * l);
    }
}

/// The data set is the same every time: order `i` of it has one flat form.
pub proof fn data_set_is_fixed(a: TransportOrder, b: TransportOrder, i: nat)
    requires
        orders::is_synthetic(a, i),
        orders::is_synthetic(b, i),
    ensures
        a.flat() == b.flat(),
{
    assert forall|k: int| 0 <= k < 8 implies #[trigger] a.actions@[k] == b.actions@[k] by {
        assert(a.actions@[k] == orders::synthetic_action(i * 10_000, k as nat));
        assert(b.actions@[k] == orders::synthetic_action(i * 10_000, k as nat));
    }
    flat_form_ignores_active(a, b);
}

// ---- the fold ----------------------------------------------------------------------------

/// A fold starts from the verdict one, the empty fingerprint, the power one, no vehicle, no end
/// and no order before, with the challenge and the window that it is given. It marks an order
/// before if and only if it has consumed one, and each step leads from one state to the next.
pub proof fn fold_starts_fresh(r: nat, t_min: nat, t_max: nat, xs: Seq<Seq<nat>>, n: nat)
    ensures
        fold::initial(r, t_min, t_max).len() == 9,
        fold::initial(r, t_min, t_max)[0] == 1,
        fold::initial(r, t_min, t_max)[1] == 0,
        fold::initial(r, t_min, t_max)[2] == 1,
        fold::initial(r, t_min, t_max)[3] == r,
        fold::initial(r, t_min, t_max)[4] == 0,
        fold::initial(r, t_min, t_max)[5] == 0,
        fold::initial(r, t_min, t_max)[6] == 0,
        fold::initial(r, t_min, t_max)[7] == t_min,
        fold::initial(r, t_min, t_max)[8] == t_max,
        fold::state_after(fold::initial(r, t_min, t_max), xs, 0) == fold::initial(r, t_min, t_max),
        fold::state_after(fold::initial(r, t_min, t_max), xs, n)[6] == 1 <==> n > 0,
        fold::state_after(fold::initial(r, t_min, t_max), xs, n)[6] == 0 <==> n == 0,
        fold::state_after(fold::initial(r, t_min, t_max), xs, n + 1) == quality::next_state(
            fold::state_after(fold::initial(r, t_min, t_max), xs, n),
            xs[n as int],
        ),
{
    laws::fold_pins(fold::initial(r, t_min, t_max), xs, n);
}

/// A step raises the power by one with every field, from whatever power it starts.
proof fn lemma_power_from(pw: nat, r: nat, k: nat)
    ensures
        quality::power_after(pw, r, k as int) % field::modulus() == (pw * pow(r as int, k)) % (
        field::modulus() as int),
        k > 0 ==> quality::power_after(pw, r, k as int) < field::modulus(),
    decreases k,
{
    let m = field::modulus() as int;
    if k == 0 {
        lemma_pow0(r as int);
    } else {
        let h = (k - 1) as nat;
        let p = quality::power_after(pw, r, h as int) as int;
        let q = pow(r as int, h);
        lemma_power_from(pw, r, h);
        lemma_pow_adds(r as int, h, 1);
        lemma_pow1(r as int);
        lemma_mul_mod_noop_left(p, r as int, m);
        lemma_mul_mod_noop_left(pw * q, r as int, m);
        lemma_mul_is_associative(pw as int, q, r as int);
        lemma_mod_twice(p * r, m);
    }
}

/// A step adds every field to the fingerprint, each with its power, from whatever they start.
proof fn lemma_sum_from(phi: nat, pw: nat, r: nat, x: Seq<nat>, sums: Seq<int>, k: nat)
    requires
        k <= 83,
        sums[0] == 0,
        forall|i: int|
            0 <= i < 83 ==> #[trigger] sums[i + 1] == sums[i] + pow(r as int, i as nat) * x[i],
    ensures
        quality::fingerprint_after(phi, pw, r, x, k as int) % field::modulus() == (phi + pw
            * sums[k as int]) % (field::modulus() as int),
        k > 0 ==> quality::fingerprint_after(phi, pw, r, x, k as int) < field::modulus(),
    decreases k,
{
    let m = field::modulus() as int;
    if k == 0 {
        assert(pw * sums[0] == 0) by (nonlinear_arith)
            requires
                sums[0] == 0,
        ;
    } else {
        let h = (k - 1) as nat;
        let f = quality::fingerprint_after(phi, pw, r, x, h as int) as int;
        let p = quality::power_after(pw, r, h as int) as int;
        let q = pow(r as int, h);
        let c = x[h as int] as int;
        let s = sums[h as int];
        lemma_sum_from(phi, pw, r, x, sums, h);
        lemma_power_from(pw, r, h);
        assert(sums[h as int + 1] == s + q * c);
        // the term
        lemma_mul_mod_noop_left(p, c, m);
        lemma_mul_mod_noop_left(pw * q, c, m);
        assert((p * c) % m == (pw * q * c) % m);
        // the sum
        lemma_add_mod_noop(f, p * c, m);
        lemma_add_mod_noop(phi + pw * s, pw * q * c, m);
        lemma_mod_twice(p * c, m);
        lemma_add_mod_noop(f, (p * c) % m, m);
        assert(phi + pw * s + pw * q * c == phi + pw * sums[k as int]) by (nonlinear_arith)
            requires
                sums[k as int] == s + q * c,
        ;
        lemma_mod_twice(f + (p * c) % m, m);
    }
}

/// A step adds each field of the order, times the power of the challenge that counts the fields
/// before it, to the fingerprint, all times the power that it starts with; and it raises that
/// power by the number of fields. `sums` lists the sums of the first fields. This holds of all
/// states and all elements.
pub proof fn step_sums_up_fields(z: Seq<nat>, x: Seq<nat>, sums: Seq<int>)
    requires
        sums[0] == 0,
        forall|k: int|
            0 <= k < 83 ==> #[trigger] sums[k + 1] == sums[k] + pow(z[3] as int, k as nat) * x[k],
    ensures
        quality::next_state(z, x)[1] == (z[1] + z[2] * sums[83]) % (field::modulus() as int),
        quality::next_state(z, x)[2] == (z[2] * pow(z[3] as int, 83)) % (field::modulus() as int),
{
    lemma_sum_from(z[1], z[2], z[3], x, sums, 83);
    lemma_power_from(z[2], z[3], 83);
    lemma_small_mod(quality::next_state(z, x)[1], field::modulus());
    lemma_small_mod(quality::next_state(z, x)[2], field::modulus());
}

/// Where each field stands in the stream of all orders.
proof fn lemma_stream(xs: Seq<Seq<nat>>, n: nat)
    requires
        n <= xs.len(),
        forall|i: int| 0 <= i < n ==> (#[trigger] xs[i]).len() == 83,
    ensures
        laws::stream(xs, n).len() == 83 * n,
        forall|k: int|
            0 <= k < 83 * n ==> #[trigger] laws::stream(xs, n)[k] == xs[k / 83][k % 83],
    decreases n,
{
    if n > 0 {
        let h = (n - 1) as nat;
        lemma_stream(xs, h);
        assert forall|k: int| 0 <= k < 83 * n implies #[trigger] laws::stream(xs, n)[k] == xs[k
            / 83][k % 83] by {
            if k < 83 * h {
                assert(laws::stream(xs, h)[k] == xs[k / 83][k % 83]);
            } else {
                assert(k / 83 == h && k % 83 == k - 83 * h);
            }
        }
    }
}

/// The sums of the first fields are the values of the polynomial of those fields.
proof fn lemma_sums(s: Seq<nat>, fields: Seq<nat>, r: nat, sums: Seq<int>, n: nat, k: nat)
    requires
        k <= n,
        sums[0] == 0,
        forall|i: int| 0 <= i < n ==> #[trigger] s[i] == fields[i],
        forall|i: int|
            0 <= i < n ==> #[trigger] sums[i + 1] == sums[i] + pow(r as int, i as nat) * fields[i],
    ensures
        laws::polynomial(s, r, k) == sums[k as int],
    decreases k,
{
    if k > 0 {
        lemma_sums(s, fields, r, sums, n, (k - 1) as nat);
        assert(s[k - 1] == fields[k - 1]);
        assert(sums[(k - 1) + 1] == sums[k - 1] + pow(r as int, (k - 1) as nat) * fields[k - 1]);
    }
}

/// The fingerprint of a fold over `n` orders is the sum of all their fields, each times the power
/// of the challenge that counts the fields before it, in the field; and the power reached is that
/// of their number. `fields` lists the fields of all orders one after the other, and `sums` the
/// sums of the first of them.
pub proof fn fold_sums_up_all_fields(
    xs: Seq<Seq<nat>>,
    n: nat,
    r: nat,
    t_min: nat,
    t_max: nat,
    fields: Seq<nat>,
    sums: Seq<int>,
)
    requires
        n <= xs.len(),
        forall|i: int| 0 <= i < n ==> (#[trigger] xs[i]).len() == 83,
        forall|k: int| 0 <= k < 83 * n ==> #[trigger] fields[k] == xs[k / 83][k % 83],
        sums[0] == 0,
        forall|k: int|
            0 <= k < 83 * n ==> #[trigger] sums[k + 1] == sums[k] + pow(r as int, k as nat)
                * fields[k],
    ensures
        fold::state_after(fold::initial(r, t_min, t_max), xs, n)[1] == sums[83 * n as int] % (
        field::modulus() as int),
        fold::state_after(fold::initial(r, t_min, t_max), xs, n)[2] == pow(
            r as int,
            (83 * n) as nat,
        ) % (field::modulus() as int),
{
    let s = laws::stream(xs, n);
    let len = (83 * n) as nat;
    laws::fingerprint_is_polynomial(xs, n, r, t_min, t_max);
    lemma_stream(xs, n);
    assert forall|i: int| 0 <= i < len implies #[trigger] s[i] == fields[i] by {
        assert(fields[i] == xs[i / 83][i % 83]);
    }
    lemma_sums(s, fields, r, sums, len, len);
    assert(FIELDS_PER_ORDER * n == len);
}

// ---- one step ----------------------------------------------------------------------------

/// What a step makes of an order of 64-bit integers. Its constraints can always be met. The
/// verdict stays one if and only if the order, its vehicle, its actions, their locations and its
/// goods have an id, the vehicle has a capacity, every action is of type one, two or three, ends
/// after its start, lies in the time window and has a latitude and a longitude within their
/// bounds, every good has a quantity and a weight, the weights times the quantities do not exceed
/// the capacity, and, if the order before had the same vehicle, no action starts before it had
/// ended. Else the verdict is zero. The vehicle and the latest end are handed on.
pub proof fn step_on_an_order(z: Seq<nat>, o: TransportOrder)
    requires
        z[0] <= 1,
        z[5] <= 0xffff_ffff_ffff_ffff,
        z[6] <= 1,
        z[7] <= 0xffff_ffff_ffff_ffff,
        z[8] <= 0xffff_ffff_ffff_ffff,
    ensures
        quality::order_fits(z, o.elements()),
        quality::next_state(z, o.elements()).len() == 9,
        quality::next_state(z, o.elements())[0] == 1 <==> {
            &&& z[0] == 1
            &&& o.id != 0
            &&& o.vehicle.id != 0
            &&& o.vehicle.capacity != 0
            &&& forall|k: int|
                0 <= k < 8 ==> {
                    let a = #[trigger] o.actions@[k];
                    &&& a.id != 0
                    &&& a.location.id != 0
                    &&& a.action_type == 1 || a.action_type == 2 || a.action_type == 3
                    &&& a.start_time < a.end_time
                    &&& z[7] <= a.start_time
                    &&& a.end_time <= z[8]
                    &&& a.location.latitude <= 90_000_000
                    &&& a.location.longitude <= 180_000_000
                    &&& z[6] == 1 && z[4] == o.vehicle.id ==> z[5] <= a.start_time
                }
            &&& forall|k: int|
                0 <= k < 8 ==> {
                    let g = #[trigger] o.goods@[k];
                    g.id != 0 && g.quantity != 0 && g.weight != 0
                }
            &&& o.goods@[0].weight * o.goods@[0].quantity + o.goods@[1].weight
                * o.goods@[1].quantity + o.goods@[2].weight * o.goods@[2].quantity
                + o.goods@[3].weight * o.goods@[3].quantity + o.goods@[4].weight
                * o.goods@[4].quantity + o.goods@[5].weight * o.goods@[5].quantity
                + o.goods@[6].weight * o.goods@[6].quantity + o.goods@[7].weight
                * o.goods@[7].quantity <= o.vehicle.capacity
        },
        quality::next_state(z, o.elements())[0] <= 1,
        quality::next_state(z, o.elements())[3] == z[3],
        quality::next_state(z, o.elements())[4] == o.vehicle.id,
        forall|k: int|
            0 <= k < 8 ==> (#[trigger] o.actions@[k]).end_time <= quality::next_state(
                z,
                o.elements(),
            )[5],
        exists|k: int|
            0 <= k < 8 && (#[trigger] o.actions@[k]).end_time == quality::next_state(
                z,
                o.elements(),
            )[5],
        quality::next_state(z, o.elements())[6] == 1,
        quality::next_state(z, o.elements())[7] == z[7],
        quality::next_state(z, o.elements())[8] == z[8],
{
    laws::step_checks_order(z, o);
    laws::span_is_exact(o);
    o.lemma_flat_by_name();
    lemma_load_of_eight(o);
    assert(o.elements()[1] == o.flat()[1]);
    if quality::order_passes(z, o.elements()) {
        assert forall|k: int| 0 <= k < 8 implies laws::action_ok(
            #[trigger] o.actions@[k],
            z[7],
            z[8],
        ) && laws::first_start(o) <= o.actions@[k].start_time by {}
        assert forall|k: int| 0 <= k < 8 implies laws::good_ok(#[trigger] o.goods@[k]) by {}
    }
}

/// The weight of all goods, written out.
proof fn lemma_load_of_eight(o: TransportOrder)
    ensures
        laws::load(o) == o.goods@[0].weight * o.goods@[0].quantity + o.goods@[1].weight
            * o.goods@[1].quantity + o.goods@[2].weight * o.goods@[2].quantity + o.goods@[3].weight
            * o.goods@[3].quantity + o.goods@[4].weight * o.goods@[4].quantity + o.goods@[5].weight
            * o.goods@[5].quantity + o.goods@[6].weight * o.goods@[6].quantity + o.goods@[7].weight
            * o.goods@[7].quantity,
{
    reveal_with_fuel(laws::load_of, 9);
}

/// The comparisons that a step over any elements makes, and what they enforce. `start` and `end`
/// list the earliest start and the latest end of the first actions, and `load` the weight of the
/// first goods, each as a step works it out.
pub proof fn step_on_any_elements(
    z: Seq<nat>,
    x: Seq<nat>,
    start: Seq<nat>,
    end: Seq<nat>,
    load: Seq<nat>,
)
    requires
        start[0] == x[5],
        end[0] == x[6],
        forall|k: int|
            1 <= k < 8 ==> #[trigger] start[k] == (if gadgets::leq_bit(
                x[3 + 7 * k + 2],
                start[k - 1],
                64,
            ) {
                x[3 + 7 * k + 2]
            } else {
                start[k - 1]
            }),
        forall|k: int|
            1 <= k < 8 ==> #[trigger] end[k] == (if gadgets::leq_bit(
                end[k - 1],
                x[3 + 7 * k + 3],
                64,
            ) {
                x[3 + 7 * k + 3]
            } else {
                end[k - 1]
            }),
        load[0] == 0,
        forall|k: int|
            0 <= k < 8 ==> #[trigger] load[k + 1] == (load[k] + x[59 + 3 * k + 2] * x[59 + 3 * k
                + 1]) % field::modulus(),
    ensures
        quality::next_state(z, x).len() == 9,
        quality::next_state(z, x)[0] <= 1,
        quality::next_state(z, x)[0] == 1 <==> {
            &&& z[0] == 1
            &&& x[0] != 0
            &&& x[1] != 0
            &&& x[2] != 0
            &&& forall|k: int|
                #![trigger x[3 + 7 * k]]
                0 <= k < 8 ==> {
                    &&& x[3 + 7 * k] != 0
                    &&& x[3 + 7 * k + 1] == 1 || x[3 + 7 * k + 1] == 2 || x[3 + 7 * k + 1] == 3
                    &&& x[3 + 7 * k + 4] != 0
                    &&& !gadgets::leq_bit(x[3 + 7 * k + 3], x[3 + 7 * k + 2], 64)
                    &&& gadgets::leq_bit(z[7], x[3 + 7 * k + 2], 64)
                    &&& gadgets::leq_bit(x[3 + 7 * k + 3], z[8], 64)
                    &&& gadgets::leq_bit(x[3 + 7 * k + 5], 90_000_000, 64)
                    &&& gadgets::leq_bit(x[3 + 7 * k + 6], 180_000_000, 64)
                }
            &&& forall|i: int| 59 <= i < 83 ==> #[trigger] x[i] != 0
            &&& gadgets::leq_bit(load[8], x[2], 131)
            &&& z[6] == 1 && z[4] == x[1] ==> gadgets::leq_bit(z[5], start[7], 64)
        },
        quality::next_state(z, x)[3] == z[3],
        quality::next_state(z, x)[4] == x[1],
        quality::next_state(z, x)[5] == end[7],
        quality::next_state(z, x)[6] == 1,
        quality::next_state(z, x)[7] == z[7],
        quality::next_state(z, x)[8] == z[8],
        quality::order_fits(z, x) <==> {
            &&& z[0] <= 1
            &&& z[6] <= 1
            &&& forall|k: int|
                #![trigger x[3 + 7 * k + 2]]
                0 <= k < 8 ==> {
                    &&& gadgets::leq_fits(x[3 + 7 * k + 3], x[3 + 7 * k + 2], 64)
                    &&& gadgets::leq_fits(z[7], x[3 + 7 * k + 2], 64)
                    &&& gadgets::leq_fits(x[3 + 7 * k + 3], z[8], 64)
                    &&& gadgets::leq_fits(x[3 + 7 * k + 5], 90_000_000, 64)
                    &&& gadgets::leq_fits(x[3 + 7 * k + 6], 180_000_000, 64)
                    &&& k > 0 ==> gadgets::leq_fits(x[3 + 7 * k + 2], start[k - 1], 64)
                    &&& k > 0 ==> gadgets::leq_fits(end[k - 1], x[3 + 7 * k + 3], 64)
                }
            &&& gadgets::leq_fits(load[8], x[2], 131)
            &&& gadgets::leq_fits(z[5], start[7], 64)
        },
{
    lemma_spans(x, start, end, 7);
    lemma_loads(x, load, 8);
    let acts = forall|k: int|
        #![trigger x[3 + 7 * k]]
        0 <= k < 8 ==> {
            &&& x[3 + 7 * k] != 0
            &&& x[3 + 7 * k + 1] == 1 || x[3 + 7 * k + 1] == 2 || x[3 + 7 * k + 1] == 3
            &&& x[3 + 7 * k + 4] != 0
            &&& !gadgets::leq_bit(x[3 + 7 * k + 3], x[3 + 7 * k + 2], 64)
            &&& gadgets::leq_bit(z[7], x[3 + 7 * k + 2], 64)
            &&& gadgets::leq_bit(x[3 + 7 * k + 3], z[8], 64)
            &&& gadgets::leq_bit(x[3 + 7 * k + 5], 90_000_000, 64)
            &&& gadgets::leq_bit(x[3 + 7 * k + 6], 180_000_000, 64)
        };
    let fits = forall|k: int|
        #![trigger x[3 + 7 * k + 2]]
        0 <= k < 8 ==> {
            &&& gadgets::leq_fits(x[3 + 7 * k + 3], x[3 + 7 * k + 2], 64)
            &&& gadgets::leq_fits(z[7], x[3 + 7 * k + 2], 64)
            &&& gadgets::leq_fits(x[3 + 7 * k + 3], z[8], 64)
            &&& gadgets::leq_fits(x[3 + 7 * k + 5], 90_000_000, 64)
            &&& gadgets::leq_fits(x[3 + 7 * k + 6], 180_000_000, 64)
            &&& k > 0 ==> gadgets::leq_fits(x[3 + 7 * k + 2], start[k - 1], 64)
            &&& k > 0 ==> gadgets::leq_fits(end[k - 1], x[3 + 7 * k + 3], 64)
        };
    let goods = forall|i: int| 59 <= i < 83 ==> #[trigger] x[i] != 0;
    assert(acts == quality::actions_pass(x, 8, z[7], z[8])) by {
        if acts {
            assert forall|k: int| 0 <= k < 8 implies #[trigger] quality::action_passes(
                x,
                k,
                z[7],
                z[8],
            ) by {
                assert(x[3 + 7 * k] == x[quality::action_at(k)]);
            }
        }
        if quality::actions_pass(x, 8, z[7], z[8]) {
            assert forall|k: int| #![trigger x[3 + 7 * k]] 0 <= k < 8 implies {
                &&& x[3 + 7 * k] != 0
                &&& x[3 + 7 * k + 1] == 1 || x[3 + 7 * k + 1] == 2 || x[3 + 7 * k + 1] == 3
                &&& x[3 + 7 * k + 4] != 0
                &&& !gadgets::leq_bit(x[3 + 7 * k + 3], x[3 + 7 * k + 2], 64)
                &&& gadgets::leq_bit(z[7], x[3 + 7 * k + 2], 64)
                &&& gadgets::leq_bit(x[3 + 7 * k + 3], z[8], 64)
                &&& gadgets::leq_bit(x[3 + 7 * k + 5], 90_000_000, 64)
                &&& gadgets::leq_bit(x[3 + 7 * k + 6], 180_000_000, 64)
            } by {
                assert(quality::action_passes(x, k, z[7], z[8]));
            }
        }
    }
    assert(fits == quality::actions_fit(x, 8, z[7], z[8])) by {
        if fits {
            assert forall|k: int| 0 <= k < 8 implies #[trigger] quality::action_fits(
                x,
                k,
                z[7],
                z[8],
            ) by {
                assert(x[3 + 7 * k + 2] == x[quality::action_at(k) + 2]);
            }
            assert forall|k: int| 1 <= k < 8 implies #[trigger] quality::widening_fits(x, k) by {
                assert(x[3 + 7 * k + 2] == x[quality::action_at(k) + 2]);
                lemma_spans(x, start, end, (k - 1) as nat);
            }
        }
        if quality::actions_fit(x, 8, z[7], z[8]) {
            assert forall|k: int| #![trigger x[3 + 7 * k + 2]] 0 <= k < 8 implies {
                &&& gadgets::leq_fits(x[3 + 7 * k + 3], x[3 + 7 * k + 2], 64)
                &&& gadgets::leq_fits(z[7], x[3 + 7 * k + 2], 64)
                &&& gadgets::leq_fits(x[3 + 7 * k + 3], z[8], 64)
                &&& gadgets::leq_fits(x[3 + 7 * k + 5], 90_000_000, 64)
                &&& gadgets::leq_fits(x[3 + 7 * k + 6], 180_000_000, 64)
                &&& k > 0 ==> gadgets::leq_fits(x[3 + 7 * k + 2], start[k - 1], 64)
                &&& k > 0 ==> gadgets::leq_fits(end[k - 1], x[3 + 7 * k + 3], 64)
            } by {
                assert(quality::action_fits(x, k, z[7], z[8]));
                if k > 0 {
                    assert(quality::widening_fits(x, k));
                    lemma_spans(x, start, end, (k - 1) as nat);
                }
            }
        }
    }
    assert(goods == quality::goods_pass(x, 8)) by {
        if quality::goods_pass(x, 8) {
            assert forall|i: int| 59 <= i < 83 implies #[trigger] x[i] != 0 by {
                let k = (i - 59) / 3;
                assert(quality::good_passes(x, k));
                assert(i == 59 + 3 * k || i == 59 + 3 * k + 1 || i == 59 + 3 * k + 2);
            }
        }
    }
}

/// The time span of the first actions.
proof fn lemma_spans(x: Seq<nat>, start: Seq<nat>, end: Seq<nat>, k: nat)
    requires
        k < 8,
        start[0] == x[5],
        end[0] == x[6],
        forall|k: int|
            1 <= k < 8 ==> #[trigger] start[k] == (if gadgets::leq_bit(
                x[3 + 7 * k + 2],
                start[k - 1],
                64,
            ) {
                x[3 + 7 * k + 2]
            } else {
                start[k - 1]
            }),
        forall|k: int|
            1 <= k < 8 ==> #[trigger] end[k] == (if gadgets::leq_bit(
                end[k - 1],
                x[3 + 7 * k + 3],
                64,
            ) {
                x[3 + 7 * k + 3]
            } else {
                end[k - 1]
            }),
    ensures
        quality::earliest(x, k as int + 1) == start[k as int],
        quality::latest(x, k as int + 1) == end[k as int],
    decreases k,
{
    if k > 0 {
        lemma_spans(x, start, end, (k - 1) as nat);
    }
}

/// The weight of the first goods.
proof fn lemma_loads(x: Seq<nat>, load: Seq<nat>, k: nat)
    requires
        k <= 8,
        load[0] == 0,
        forall|k: int|
            0 <= k < 8 ==> #[trigger] load[k + 1] == (load[k] + x[59 + 3 * k + 2] * x[59 + 3 * k
                + 1]) % field::modulus(),
    ensures
        quality::weight(x, k as int) == load[k as int],
    decreases k,
{
    if k > 0 {
        let h = k - 1;
        lemma_loads(x, load, h as nat);
        assert(load[h + 1] == (load[h] + x[59 + 3 * h + 2] * x[59 + 3 * h + 1])
            % field::modulus());
        lemma_add_mod_noop_right(
            load[h] as int,
            (x[59 + 3 * h + 2] * x[59 + 3 * h + 1]) as int,
            field::modulus() as int,
        );
    }
}

// ---- numbers -----------------------------------------------------------------------------

/// What the comparison gadget answers and enforces, as numbers, for all operands: it works on
/// `b - a + 2^n` in the field, answers its bit `n`, and enforces that it has `n + 1` bits.
pub proof fn comparison_by_number(a: nat, b: nat, n: nat)
    ensures
        gadgets::leq_bit(a, b, n) <==> (((b - a + pow2(n)) % (field::modulus() as int)) / (pow2(
            n,
        ) as int)) % 2 == 1,
        gadgets::leq_fits(a, b, n) <==> (b - a + pow2(n)) % (field::modulus() as int) < pow2(n + 1),
{
    reveal(gadgets::leq_bit);
    reveal(gadgets::leq_fits);
    lemma_pow2_pos(n);
    lemma_mod_bound(b - a + pow2(n), field::modulus() as int);
}

/// What digits stand for: each adds its power of two, the least significant first. The last of
/// `n + 1` digits is the top one of a field element if some digits stand for it, up to multiples
/// of the order of the field.
pub proof fn digits_by_number(bits: Seq<bool>, k: nat, s: nat, n: nat, bit: bool)
    ensures
        gadgets::binary(bits, 0) == 0,
        gadgets::binary(bits, k + 1) == gadgets::binary(bits, k) + (if bits[k as int] {
            pow2(k)
        } else {
            0
        }),
        gadgets::is_top_digit(s, n, bit) <==> exists|d: Seq<bool>|
            d.len() == n + 1 && d[n as int] == bit && #[trigger] gadgets::binary(d, n + 1)
                % field::modulus() == s,
{
}

/// The order of the field, the integer that an element stands for, and when its limbs are well
/// formed.
pub proof fn elements_by_number(f: Fr)
    ensures
        field::modulus() == 0x43e1f593f0000001int + 0x2833e84879b97091int
            * 0x1_0000_0000_0000_0000int + 0xb85045b68181585dint
            * 0x1_0000_0000_0000_0000_0000_0000_0000_0000int + 0x30644e72e131a029int
            * 0x1_0000_0000_0000_0000_0000_0000_0000_0000_0000_0000_0000_0000int,
        f@ == f.limbs[0] + pow2(64) * f.limbs[1] + pow2(128) * f.limbs[2] + pow2(192) * f.limbs[3],
        f.wf() <==> f@ < field::modulus(),
{
    lemma2_to64();
    lemma_pow2_adds(64, 64);
    lemma_pow2_adds(128, 64);
}

/// A limb and the rest are determined by what they make together.
proof fn lemma_limb(a: int, x: int, b: int, y: int)
    requires
        0 <= a < 0x1_0000_0000_0000_0000,
        0 <= b < 0x1_0000_0000_0000_0000,
        a + 0x1_0000_0000_0000_0000 * x == b + 0x1_0000_0000_0000_0000 * y,
    ensures
        a == b,
        x == y,
{
}

/// Different limbs stand for different integers.
pub proof fn limbs_are_determined(f: Fr, g: Fr)
    requires
        f@ == g@,
    ensures
        forall|i: int| 0 <= i < 4 ==> #[trigger] f.limbs[i] == g.limbs[i],
{
    let w = 0x1_0000_0000_0000_0000int;
    let f2 = f.limbs[2] + w * f.limbs[3];
    let g2 = g.limbs[2] + w * g.limbs[3];
    let f1 = f.limbs[1] + w * f2;
    let g1 = g.limbs[1] + w * g2;
    lemma_limb(f.limbs[0] as int, f1, g.limbs[0] as int, g1);
    lemma_limb(f.limbs[1] as int, f2, g.limbs[1] as int, g2);
    lemma_limb(f.limbs[2] as int, f.limbs[3] as int, g.limbs[2] as int, g.limbs[3] as int);
}

/// Lists of elements are spoken of one by one.
pub proof fn lists_of_elements(xs: Seq<Fr>, ys: Seq<nat>)
    ensures
        field::integers(xs).len() == xs.len(),
        forall|i: int| 0 <= i < xs.len() ==> #[trigger] field::integers(xs)[i] == xs[i]@,
        field::all_wf(xs) <==> forall|i: int|
            0 <= i < xs.len() ==> (#[trigger] xs[i])@ < field::modulus(),
        field::all_elements(ys) <==> forall|i: int|
            0 <= i < ys.len() ==> #[trigger] ys[i] < field::modulus(),
{
}

// ---- constraint systems ------------------------------------------------------------------

/// What it means that a system grew, that what was added only derives, and what it counts.
pub proof fn growth_in_full(
    before: ConstraintSystem,
    after: ConstraintSystem,
    w: Seq<nat>,
    p: nat,
    c: nat,
)
    ensures
        r1cs::grows(before, after) <==> {
            &&& r1cs::present(after) == r1cs::present(before)
            &&& r1cs::intact(before) ==> r1cs::intact(after)
            &&& r1cs::live(after, None) == r1cs::live(before, None)
            &&& forall|run: Option<Seq<nat>>| #[trigger]
                r1cs::live(after, run) ==> r1cs::live(before, run)
            &&& forall|v: FpVar| r1cs::owns_fp(before, v) ==> #[trigger] r1cs::owns_fp(after, v)
            &&& forall|b: Boolean| r1cs::owns_bit(before, b) ==> #[trigger] r1cs::owns_bit(after, b)
        },
        r1cs::extends(before, after, w) <==> exists|v: Seq<nat>|
            #[trigger] r1cs::live(after, Some(v)) && r1cs::same_values(before, w, v),
        r1cs::derives(before, after) <==> {
            &&& r1cs::grows(before, after)
            &&& r1cs::satisfied(after) == r1cs::satisfied(before)
            &&& forall|u: Seq<nat>|
                r1cs::live(before, Some(u)) ==> #[trigger] r1cs::extends(before, after, u)
        },
        r1cs::adds(before, after, p, c) <==> {
            &&& r1cs::inputs(after) == r1cs::inputs(before)
            &&& r1cs::witnesses(after) == r1cs::witnesses(before) + p
            &&& r1cs::constraints(after) == r1cs::constraints(before) + c
        },
        r1cs::stalls(before, after) <==> {
            &&& r1cs::present(after) == r1cs::present(before)
            &&& !r1cs::intact(after)
            &&& r1cs::satisfied(after) == r1cs::satisfied(before)
            &&& forall|run: Option<Seq<nat>>| #[trigger]
                r1cs::live(after, run) == r1cs::live(before, run)
            &&& r1cs::inputs(after) == r1cs::inputs(before)
            &&& r1cs::witnesses(after) == r1cs::witnesses(before) + 1
            &&& r1cs::constraints(after) == r1cs::constraints(before)
        },
{
    reveal(r1cs::extends);
}

/// What it means that two assignments agree, and that an assignment can be completed with given
/// values.
pub proof fn completion_in_full(
    before: ConstraintSystem,
    after: ConstraintSystem,
    w: Seq<nat>,
    v: Seq<nat>,
    b: Boolean,
    bit: bool,
    vars: Seq<FpVar>,
    xs: Seq<nat>,
)
    ensures
        r1cs::same_values(before, w, v) <==> {
            &&& forall|x: FpVar| #[trigger]
                r1cs::owns_fp(before, x) ==> r1cs::fp_value(x, Some(w)) == r1cs::fp_value(x, Some(v))
            &&& forall|y: Boolean| #[trigger]
                r1cs::owns_bit(before, y) ==> r1cs::bit_value(y, Some(w)) == r1cs::bit_value(
                    y,
                    Some(v),
                )
        },
        r1cs::extends_with_bit(before, after, w, b, bit) <==> exists|u: Seq<nat>|
            #[trigger] r1cs::live(after, Some(u)) && r1cs::same_values(before, w, u)
                && r1cs::bit_value(b, Some(u)) == bit,
        r1cs::extends_with_values(before, after, w, vars, xs) <==> exists|u: Seq<nat>|
            #[trigger] r1cs::live(after, Some(u)) && r1cs::same_values(before, w, u)
                && r1cs::values(vars, Some(u)) == xs,
{
    reveal(r1cs::same_values);
    reveal(r1cs::extends_with_bit);
    reveal(r1cs::extends_with_values);
}

/// What a further constraint makes of whether a system is satisfied: it stays so if and only if
/// the constraint is met, and where this is not known it stays unknown.
pub proof fn satisfaction_in_full(known: bool, met: bool)
    ensures
        r1cs::narrowed(Some(known), met) == Some(known && met),
        r1cs::narrowed(None, met) == None::<bool>,
{
}

/// What is said of single variables and truth values, and of lists of them.
pub proof fn variables_in_full(
    cs: ConstraintSystem,
    v: FpVar,
    u: FpVar,
    b: Boolean,
    vars: Seq<FpVar>,
    bits: Seq<Boolean>,
    run: Option<Seq<nat>>,
)
    ensures
        r1cs::fp_value(v, run) == r1cs::fp_integer(v, run) % field::modulus(),
        r1cs::fp_is_constant(v) <==> forall|s: ConstraintSystem| #[trigger] r1cs::owns_fp(s, v),
        r1cs::bit_is_constant(b) <==> forall|s: ConstraintSystem| #[trigger] r1cs::owns_bit(s, b),
        r1cs::lacks(cs, v) <==> r1cs::present(cs) && r1cs::live(cs, None) && r1cs::belongs_fp(cs, v)
            && !r1cs::assigned(cs, v),
        r1cs::valueless(cs, v) <==> r1cs::present(cs) && r1cs::live(cs, None) && r1cs::belongs_fp(
            cs,
            v,
        ) && !r1cs::carried(v),
        r1cs::one_lacks(cs, v, u) <==> r1cs::belongs_fp(cs, v) && r1cs::belongs_fp(cs, u) && (
        r1cs::lacks(cs, v) || r1cs::lacks(cs, u)),
        gadgets::usable(cs, v, u) <==> r1cs::intact(cs) && r1cs::owns_fp(cs, v) && r1cs::owns_fp(
            cs,
            u,
        ),
        circuit::reads_as(cs, v, b) <==> forall|t: Option<Seq<nat>>| #[trigger]
            r1cs::live(cs, t) ==> r1cs::bit_value(b, t) == (r1cs::fp_value(v, t) == 1),
        r1cs::owns_all(cs, vars) <==> forall|i: int|
            0 <= i < vars.len() ==> r1cs::owns_fp(cs, #[trigger] vars[i]),
        r1cs::no_constants(vars) <==> forall|i: int|
            0 <= i < vars.len() ==> !r1cs::fp_is_constant(#[trigger] vars[i]),
        r1cs::values(vars, run).len() == vars.len(),
        forall|i: int|
            0 <= i < vars.len() ==> #[trigger] r1cs::values(vars, run)[i] == r1cs::fp_value(
                vars[i],
                run,
            ),
        r1cs::owns_bits(cs, bits) <==> forall|i: int|
            0 <= i < bits.len() ==> r1cs::owns_bit(cs, #[trigger] bits[i]),
        r1cs::all_true(bits, run) <==> forall|i: int|
            0 <= i < bits.len() ==> r1cs::bit_value(#[trigger] bits[i], run),
        r1cs::some_true(bits, run) <==> exists|i: int|
            0 <= i < bits.len() && r1cs::bit_value(#[trigger] bits[i], run),
        r1cs::has_variable(bits) <==> exists|i: int|
            0 <= i < bits.len() && !r1cs::bit_is_constant(#[trigger] bits[i]),
        r1cs::all_variables(bits) <==> forall|i: int|
            0 <= i < bits.len() ==> !r1cs::bit_is_constant(#[trigger] bits[i]),
{
    reveal(r1cs::fp_value);
}

} // verus!
