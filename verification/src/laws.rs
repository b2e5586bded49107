//! What holds of the steps as a whole, beyond what each function says of itself.
use vstd::prelude::*;
use vstd::arithmetic::div_mod::*;
use vstd::arithmetic::mul::*;
use vstd::arithmetic::power::*;
use vstd::arithmetic::power2::*;
use crate::circuit;
use crate::field;
use crate::fold;
use crate::gadgets;
use crate::orders;
use crate::otm::{Action, Good, TransportOrder, FIELDS_PER_ORDER, MAX_ACTIONS, MAX_GOODS};
use crate::quality;
use crate::quality::{
    MAX_LATITUDE, MAX_LONGITUDE, STATE_LEN, STEP_CONSTRAINTS, STEP_WITNESSES, SUM_BITS, TIME_BITS,
};
use crate::r1cs;
use crate::r1cs::{Boolean, ConstraintSystem, FpVar};

verus! {

/// Bit `n` of an integer below `2^(n+1)` tells whether it reaches `2^n`.
proof fn lemma_bit(s: nat, n: nat)
    requires
        s < pow2(n + 1),
    ensures
        ((s / pow2(n)) % 2 == 1) == (pow2(n) <= s),
{
    lemma_pow2_pos(n);
    lemma_pow2_unfold(n + 1);
    let p = pow2(n) as int;
    if s < p {
        lemma_fundamental_div_mod_converse(s as int, p, 0, s as int);
    } else {
        lemma_fundamental_div_mod_converse(s as int, p, 1, s - p);
    }
}

/// The comparison gadget compares: where both elements are below `2^n`, what it enforces
/// holds, and its answer is whether the first is at most the second.
pub proof fn leq_compares(a: nat, b: nat, n: nat)
    requires
        n <= 252,
        a < pow2(n),
        b < pow2(n),
    ensures
        gadgets::leq_fits(a, b, n),
        gadgets::leq_bit(a, b, n) == (a <= b),
{
    reveal(gadgets::leq_fits);
    reveal(gadgets::leq_bit);
    gadgets::lemma_modulus_bits();
    lemma_pow2_unfold(n + 1);
    if n < 252 {
        lemma_pow2_strictly_increases(n + 1, 253);
    }
    let s = (b - a + pow2(n)) as nat;
    lemma_small_mod(s, field::modulus());
    lemma_bit(s, n);
}

/// What the comparison gadget enforces bounds the difference of the two elements by `2^n`, in
/// one direction or the other, and the answer tells the direction. This holds of all field
/// elements, and the other way round: a difference within the bound is accepted.
pub proof fn leq_bounds_difference(a: nat, b: nat, n: nat)
    requires
        n <= 252,
    ensures
        gadgets::leq_fits(a, b, n) <==> (b - a) % (field::modulus() as int) < pow2(n) || (a - b)
            % (field::modulus() as int) <= pow2(n),
        gadgets::leq_fits(a, b, n) ==> gadgets::leq_bit(a, b, n) == ((b - a) % (
        field::modulus() as int) < pow2(n)),
{
    reveal(gadgets::leq_fits);
    reveal(gadgets::leq_bit);
    let m = field::modulus() as int;
    let t = pow2(n) as int;
    let d = (b - a) % m;
    let e = (a - b) % m;
    gadgets::lemma_modulus_bits();
    lemma_pow2_pos(n);
    lemma_pow2_unfold(n + 1);
    lemma_pow2_unfold(253);
    if n < 252 {
        lemma_pow2_strictly_increases(n, 252);
        lemma_pow2_strictly_increases(n + 1, 253);
    }
    lemma_mod_bound(b - a, m);
    // the difference the other way round
    lemma_sub_mod_noop_right(0, b - a, m);
    assert(0 - (b - a) == a - b);
    assert(e == (0 - d) % m);
    if d == 0 {
        lemma_small_mod(0, m as nat);
    } else {
        lemma_mod_add_multiples_vanish(0 - d, m);
        lemma_small_mod((m - d) as nat, m as nat);
    }
    // the sum
    let s = gadgets::leq_sum(a, b, n);
    lemma_add_mod_noop_right(t, b - a, m);
    assert(b - a + t == t + (b - a));
    assert(s == (t + d) % m);
    if t + d < m {
        lemma_small_mod((t + d) as nat, m as nat);
        if s < pow2(n + 1) {
            lemma_bit(s, n);
        }
    } else {
        lemma_mod_add_multiples_vanish(t + d - m, m);
        lemma_small_mod((t + d - m) as nat, m as nat);
        lemma_bit(s, n);
    }
}

/// An action as it should be: it and its location have an id, its type is one of the three, it
/// ends after its start and within the time window, and its location lies within the bounds.
pub open spec fn action_ok(a: Action, t_min: nat, t_max: nat) -> bool {
    &&& a.id != 0
    &&& a.location.id != 0
    &&& 1 <= a.action_type <= 3
    &&& a.start_time < a.end_time
    &&& t_min <= a.start_time
    &&& a.end_time <= t_max
    &&& a.location.latitude <= MAX_LATITUDE
    &&& a.location.longitude <= MAX_LONGITUDE
}

/// A good as it should be: it has an id, a quantity and a weight.
pub open spec fn good_ok(g: Good) -> bool {
    g.id != 0 && g.quantity != 0 && g.weight != 0
}

/// The weight of the first `k` of `goods`.
pub open spec fn load_of(goods: Seq<Good>, k: int) -> nat
    decreases k,
{
    if k <= 0 {
        0
    } else {
        load_of(goods, k - 1) + (goods[k - 1].weight as nat) * (goods[k - 1].quantity as nat)
    }
}

/// The weight of all goods of an order.
pub open spec fn load(o: TransportOrder) -> nat {
    load_of(o.goods@, MAX_GOODS as int)
}

/// The earliest start of the first `k` of `actions`.
pub open spec fn first_start_of(actions: Seq<Action>, k: int) -> int
    decreases k,
{
    if k <= 1 {
        actions[0].start_time as int
    } else {
        vstd::math::min(first_start_of(actions, k - 1), actions[k - 1].start_time as int)
    }
}

/// The latest end of the first `k` of `actions`.
pub open spec fn last_end_of(actions: Seq<Action>, k: int) -> int
    decreases k,
{
    if k <= 1 {
        actions[0].end_time as int
    } else {
        vstd::math::max(last_end_of(actions, k - 1), actions[k - 1].end_time as int)
    }
}

/// When an order starts: the earliest start of its actions.
pub open spec fn first_start(o: TransportOrder) -> int {
    first_start_of(o.actions@, MAX_ACTIONS as int)
}

/// When an order ends: the latest end of its actions.
pub open spec fn last_end(o: TransportOrder) -> int {
    last_end_of(o.actions@, MAX_ACTIONS as int)
}

/// An order as it should be, taken by itself: it and its vehicle have an id, the vehicle has a
/// capacity, which the goods do not exceed, and all actions and goods are as they should be.
pub open spec fn order_ok(o: TransportOrder, t_min: nat, t_max: nat) -> bool {
    &&& o.id != 0
    &&& o.vehicle.id != 0
    &&& o.vehicle.capacity != 0
    &&& forall|k: int| 0 <= k < MAX_ACTIONS ==> action_ok(#[trigger] o.actions@[k], t_min, t_max)
    &&& forall|k: int| 0 <= k < MAX_GOODS ==> good_ok(#[trigger] o.goods@[k])
    &&& load(o) <= o.vehicle.capacity
}

/// What a state holds that steps over orders lead to: its verdict and its marker of an order
/// before are zero or one, its fingerprint and its power are field elements, and the rest are
/// 64-bit integers.
pub open spec fn is_state(z: Seq<nat>) -> bool {
    &&& z.len() == STATE_LEN
    &&& z[0] <= 1
    &&& z[1] < field::modulus()
    &&& z[2] < field::modulus()
    &&& z[3] <= u64::MAX
    &&& z[4] <= u64::MAX
    &&& z[5] <= u64::MAX
    &&& z[6] <= 1
    &&& z[7] <= u64::MAX
    &&& z[8] <= u64::MAX
}

/// Where the fields of action `k` of an order stand among its elements.
proof fn lemma_action_elements(o: TransportOrder, k: int)
    requires
        0 <= k < MAX_ACTIONS,
    ensures
        o.elements().len() == FIELDS_PER_ORDER,
        o.elements()[quality::action_at(k)] == o.actions@[k].id,
        o.elements()[quality::action_at(k) + 1] == o.actions@[k].action_type,
        o.elements()[quality::action_at(k) + 2] == o.actions@[k].start_time,
        o.elements()[quality::action_at(k) + 3] == o.actions@[k].end_time,
        o.elements()[quality::action_at(k) + 4] == o.actions@[k].location.id,
        o.elements()[quality::action_at(k) + 5] == o.actions@[k].location.latitude,
        o.elements()[quality::action_at(k) + 6] == o.actions@[k].location.longitude,
{
    o.lemma_flat();
    let a = o.actions@[k];
    assert(a.flat()[0] == a.id);
    assert(a.flat()[1] == a.action_type);
    assert(a.flat()[2] == a.start_time);
    assert(a.flat()[3] == a.end_time);
    assert(a.flat()[4] == a.location.id);
    assert(a.flat()[5] == a.location.latitude);
    assert(a.flat()[6] == a.location.longitude);
}

/// Where the fields of good `k` of an order stand among its elements.
proof fn lemma_good_elements(o: TransportOrder, k: int)
    requires
        0 <= k < MAX_GOODS,
    ensures
        o.elements().len() == FIELDS_PER_ORDER,
        o.elements()[quality::good_at(k)] == o.goods@[k].id,
        o.elements()[quality::good_at(k) + 1] == o.goods@[k].quantity,
        o.elements()[quality::good_at(k) + 2] == o.goods@[k].weight,
{
    o.lemma_flat();
    let g = o.goods@[k];
    assert(g.flat()[0] == g.id);
    assert(g.flat()[1] == g.quantity);
    assert(g.flat()[2] == g.weight);
}

/// `leq_compares` for 64-bit integers.
proof fn lemma_leq_time(a: nat, b: nat)
    requires
        a <= u64::MAX,
        b <= u64::MAX,
    ensures
        gadgets::leq_fits(a, b, TIME_BITS as nat),
        gadgets::leq_bit(a, b, TIME_BITS as nat) == (a <= b),
{
    lemma2_to64();
    leq_compares(a, b, TIME_BITS as nat);
}

/// The time span that a step works out is that of the first `k` actions.
proof fn lemma_span(o: TransportOrder, k: int)
    requires
        1 <= k <= MAX_ACTIONS,
    ensures
        quality::earliest(o.elements(), k) == first_start_of(o.actions@, k),
        quality::latest(o.elements(), k) == last_end_of(o.actions@, k),
        first_start_of(o.actions@, k) <= u64::MAX,
        last_end_of(o.actions@, k) <= u64::MAX,
    decreases k,
{
    lemma_action_elements(o, k - 1);
    if k > 1 {
        lemma_span(o, k - 1);
        lemma_leq_time(
            o.actions@[k - 1].start_time as nat,
            quality::earliest(o.elements(), k - 1),
        );
        lemma_leq_time(quality::latest(o.elements(), k - 1), o.actions@[k - 1].end_time as nat);
    }
}

/// The time span of the first `k` actions covers each of them.
proof fn lemma_span_covers(actions: Seq<Action>, k: int)
    requires
        k >= 1,
    ensures
        forall|j: int|
            0 <= j < k ==> first_start_of(actions, k) <= (#[trigger] actions[j]).start_time,
        forall|j: int| 0 <= j < k ==> (#[trigger] actions[j]).end_time <= last_end_of(actions, k),
        exists|j: int| 0 <= j < k && (#[trigger] actions[j]).start_time == first_start_of(actions, k),
        exists|j: int| 0 <= j < k && (#[trigger] actions[j]).end_time == last_end_of(actions, k),
    decreases k,
{
    if k > 1 {
        lemma_span_covers(actions, k - 1);
    } else {
        assert(actions[0].start_time == first_start_of(actions, k));
        assert(actions[0].end_time == last_end_of(actions, k));
    }
}

/// What a step takes for the start and the end of an order are the earliest start and the
/// latest end of its actions: no action starts before or ends after, and some action starts
/// and some action ends just then.
pub proof fn span_is_exact(o: TransportOrder)
    ensures
        quality::earliest(o.elements(), MAX_ACTIONS as int) == first_start(o),
        quality::latest(o.elements(), MAX_ACTIONS as int) == last_end(o),
        forall|k: int|
            0 <= k < MAX_ACTIONS ==> first_start(o) <= (#[trigger] o.actions@[k]).start_time
                && o.actions@[k].end_time <= last_end(o),
        exists|k: int|
            0 <= k < MAX_ACTIONS && (#[trigger] o.actions@[k]).start_time == first_start(o),
        exists|k: int| 0 <= k < MAX_ACTIONS && (#[trigger] o.actions@[k]).end_time == last_end(o),
{
    lemma_span(o, MAX_ACTIONS as int);
    lemma_span_covers(o.actions@, MAX_ACTIONS as int);
}

/// The weight of the first `k` goods is well below the order of the field, so that a step sums
/// it up exactly.
proof fn lemma_weight(o: TransportOrder, k: int)
    requires
        0 <= k <= MAX_GOODS,
    ensures
        quality::weight(o.elements(), k) == load_of(o.goods@, k),
        load_of(o.goods@, k) <= k * 0xffff_ffff_ffff_fffe_0000_0000_0000_0001,
    decreases k,
{
    if k > 0 {
        lemma_weight(o, k - 1);
        lemma_good_elements(o, k - 1);
        let w = o.goods@[k - 1].weight as nat;
        let q = o.goods@[k - 1].quantity as nat;
        assert(w * q <= 0xffff_ffff_ffff_fffe_0000_0000_0000_0001) by (nonlinear_arith)
            requires
                w <= 0xffff_ffff_ffff_ffff,
                q <= 0xffff_ffff_ffff_ffff,
        ;
        lemma_small_mod(w * q, field::modulus());
        lemma_small_mod(load_of(o.goods@, k), field::modulus());
    }
}

/// `leq_compares` for a weight of all goods and a capacity.
proof fn lemma_leq_sum(a: nat, b: nat)
    requires
        a <= 8 * 0xffff_ffff_ffff_fffe_0000_0000_0000_0001,
        b <= u64::MAX,
    ensures
        gadgets::leq_fits(a, b, SUM_BITS as nat),
        gadgets::leq_bit(a, b, SUM_BITS as nat) == (a <= b),
{
    lemma2_to64();
    lemma_pow2_adds(64, 64);
    lemma_pow2_adds(128, 3);
    leq_compares(a, b, SUM_BITS as nat);
}

/// The checks of action `k` of an order, and what they enforce.
proof fn lemma_action(o: TransportOrder, k: int, t_min: nat, t_max: nat)
    requires
        0 <= k < MAX_ACTIONS,
        t_min <= u64::MAX,
        t_max <= u64::MAX,
    ensures
        quality::action_passes(o.elements(), k, t_min, t_max) == action_ok(
            o.actions@[k],
            t_min,
            t_max,
        ),
        quality::action_fits(o.elements(), k, t_min, t_max),
{
    let a = o.actions@[k];
    lemma_action_elements(o, k);
    lemma_leq_time(a.end_time as nat, a.start_time as nat);
    lemma_leq_time(t_min, a.start_time as nat);
    lemma_leq_time(a.end_time as nat, t_max);
    lemma_leq_time(a.location.latitude as nat, MAX_LATITUDE as nat);
    lemma_leq_time(a.location.longitude as nat, MAX_LONGITUDE as nat);
}

/// What a step demands and finds of an order. Its constraints can be met whether or not the
/// order is as it should be: a bad order fails its checks, and the constraints are met all the
/// same. And the checks are passed if and only if the order is as it should be and does not
/// start before the order before it, of the same vehicle, has ended.
pub proof fn step_checks_order(z: Seq<nat>, o: TransportOrder)
    requires
        z[0] <= 1,
        z[5] <= u64::MAX,
        z[6] <= 1,
        z[7] <= u64::MAX,
        z[8] <= u64::MAX,
    ensures
        quality::order_fits(z, o.elements()),
        quality::order_passes(z, o.elements()) == (order_ok(o, z[7], z[8]) && (z[6] == 1 && z[4]
            == o.vehicle.id ==> z[5] <= first_start(o))),
{
    let x = o.elements();
    let n = MAX_ACTIONS as int;
    o.lemma_flat();
    lemma_weight(o, MAX_GOODS as int);
    lemma_leq_sum(load(o), o.vehicle.capacity as nat);
    span_is_exact(o);
    lemma_span(o, n);
    lemma_leq_time(z[5], quality::earliest(x, n));
    assert forall|k: int| 0 <= k < n implies #[trigger] quality::action_fits(x, k, z[7], z[8])
        && quality::action_passes(x, k, z[7], z[8]) == action_ok(o.actions@[k], z[7], z[8]) by {
        lemma_action(o, k, z[7], z[8]);
    }
    assert forall|k: int| 1 <= k < n implies #[trigger] quality::widening_fits(x, k) by {
        lemma_action_elements(o, k);
        lemma_span(o, k);
        lemma_leq_time(o.actions@[k].start_time as nat, quality::earliest(x, k));
        lemma_leq_time(quality::latest(x, k), o.actions@[k].end_time as nat);
    }
    assert forall|k: int| 0 <= k < MAX_GOODS implies #[trigger] quality::good_passes(x, k)
        == good_ok(o.goods@[k]) by {
        lemma_good_elements(o, k);
    }
    if quality::actions_pass(x, n, z[7], z[8]) {
        assert forall|k: int| 0 <= k < n implies action_ok(
            #[trigger] o.actions@[k],
            z[7],
            z[8],
        ) by {
            assert(quality::action_passes(x, k, z[7], z[8]));
            assert(quality::action_fits(x, k, z[7], z[8]));
        }
    }
    if forall|k: int| 0 <= k < n ==> action_ok(#[trigger] o.actions@[k], z[7], z[8]) {
        assert forall|k: int| 0 <= k < n implies #[trigger] quality::action_passes(
            x,
            k,
            z[7],
            z[8],
        ) by {
            assert(action_ok(o.actions@[k], z[7], z[8]));
            assert(quality::action_fits(x, k, z[7], z[8]));
        }
    }
    if quality::goods_pass(x, MAX_GOODS as int) {
        assert forall|k: int| 0 <= k < MAX_GOODS implies good_ok(#[trigger] o.goods@[k]) by {
            assert(quality::good_passes(x, k));
        }
    }
}

/// The fields of an order, each a 64-bit integer and nothing more.
pub open spec fn is_record(x: Seq<nat>) -> bool {
    &&& x.len() == FIELDS_PER_ORDER
    &&& forall|i: int| 0 <= i < x.len() ==> #[trigger] x[i] <= u64::MAX
}

/// The time span of 64-bit integers is made of 64-bit integers.
proof fn lemma_record_span(x: Seq<nat>, k: int)
    requires
        is_record(x),
        1 <= k <= MAX_ACTIONS,
    ensures
        quality::earliest(x, k) <= u64::MAX,
        quality::latest(x, k) <= u64::MAX,
    decreases k,
{
    if k > 1 {
        lemma_record_span(x, k - 1);
    }
}

/// The weight of 64-bit integers is well below the order of the field.
proof fn lemma_record_weight(x: Seq<nat>, k: int)
    requires
        is_record(x),
        0 <= k <= MAX_GOODS,
    ensures
        quality::weight(x, k) <= k * 0xffff_ffff_ffff_fffe_0000_0000_0000_0001,
    decreases k,
{
    if k > 0 {
        lemma_record_weight(x, k - 1);
        let w = x[quality::good_at(k - 1) + 2];
        let q = x[quality::good_at(k - 1) + 1];
        assert(w * q <= 0xffff_ffff_ffff_fffe_0000_0000_0000_0001) by (nonlinear_arith)
            requires
                w <= 0xffff_ffff_ffff_ffff,
                q <= 0xffff_ffff_ffff_ffff,
        ;
        lemma_small_mod(w * q, field::modulus());
        lemma_small_mod(quality::weight(x, k - 1) + w * q, field::modulus());
    }
}

/// Validity is computed, never forced: whatever 64-bit integers a record holds, what a step
/// enforces is met in every state, and the verdict that it hands on is zero or one.
pub proof fn any_record_is_accepted(z: Seq<nat>, x: Seq<nat>)
    requires
        z[0] <= 1,
        z[5] <= u64::MAX,
        z[6] <= 1,
        z[7] <= u64::MAX,
        z[8] <= u64::MAX,
        is_record(x),
    ensures
        quality::order_fits(z, x),
        quality::next_state(z, x)[0] <= 1,
        !quality::order_passes(z, x) ==> quality::next_state(z, x)[0] == 0,
{
    let n = MAX_ACTIONS as int;
    assert forall|k: int| 0 <= k < n implies #[trigger] quality::action_fits(x, k, z[7], z[8]) by {
        let at = quality::action_at(k);
        lemma_leq_time(x[at + 3], x[at + 2]);
        lemma_leq_time(z[7], x[at + 2]);
        lemma_leq_time(x[at + 3], z[8]);
        lemma_leq_time(x[at + 5], MAX_LATITUDE as nat);
        lemma_leq_time(x[at + 6], MAX_LONGITUDE as nat);
    }
    assert forall|k: int| 1 <= k < n implies #[trigger] quality::widening_fits(x, k) by {
        lemma_record_span(x, k);
        lemma_leq_time(x[quality::action_at(k) + 2], quality::earliest(x, k));
        lemma_leq_time(quality::latest(x, k), x[quality::action_at(k) + 3]);
    }
    lemma_record_weight(x, MAX_GOODS as int);
    lemma_leq_sum(quality::weight(x, MAX_GOODS as int), x[2]);
    lemma_record_span(x, n);
    lemma_leq_time(z[5], quality::earliest(x, n));
}

/// Every step costs the same: two steps over variables, each from a system `before` to a system
/// `after`, add the same numbers of public variables, of private variables and of constraints,
/// whatever the values and whatever the systems held before.
pub proof fn every_step_costs_the_same(
    before: ConstraintSystem,
    after: ConstraintSystem,
    other_before: ConstraintSystem,
    other_after: ConstraintSystem,
)
    requires
        r1cs::adds(before, after, STEP_WITNESSES as nat, STEP_CONSTRAINTS as nat),
        r1cs::adds(other_before, other_after, STEP_WITNESSES as nat, STEP_CONSTRAINTS as nat),
    ensures
        r1cs::inputs(after) - r1cs::inputs(before) == r1cs::inputs(other_after) - r1cs::inputs(
            other_before,
        ),
        r1cs::witnesses(after) - r1cs::witnesses(before) == r1cs::witnesses(other_after)
            - r1cs::witnesses(other_before),
        r1cs::constraints(after) - r1cs::constraints(before) == r1cs::constraints(other_after)
            - r1cs::constraints(other_before),
{
}

/// The marker of an order before is read as the verdict is. `fp_to_bool` and `has_prev_to_bool`
/// each promise `reads_as` of the bit they give: `a` read the element `x` in the system `before`,
/// and `b` in the same system or in one that it has grown to. Then the two bits are the same in
/// every run, and true if and only if `x` is one.
pub proof fn markers_are_read_alike(
    before: ConstraintSystem,
    after: ConstraintSystem,
    x: FpVar,
    a: Boolean,
    b: Boolean,
    run: Option<Seq<nat>>,
)
    requires
        circuit::reads_as(before, x, a),
        circuit::reads_as(after, x, b),
        before == after || r1cs::grows(before, after),
        r1cs::live(after, run),
    ensures
        r1cs::bit_value(a, run) == r1cs::bit_value(b, run),
        r1cs::bit_value(a, run) == (r1cs::fp_value(x, run) == 1),
{
}

/// A fold starts from a state, and each step over an order leads from a state to a state. In
/// particular the verdict and the marker of an order before are never anything but zero or
/// one.
pub proof fn step_keeps_state(z: Seq<nat>, o: TransportOrder, r: u64, t_min: u64, t_max: u64)
    ensures
        is_state(fold::initial(r as nat, t_min as nat, t_max as nat)),
        is_state(z) ==> is_state(quality::next_state(z, o.elements())),
{
    o.lemma_flat();
    lemma_span(o, MAX_ACTIONS as int);
}

/// The challenge and the time window are those of the first state after any number of steps;
/// after one step or more there is an order before, and its vehicle is that of the last order.
pub proof fn fold_pins(z: Seq<nat>, xs: Seq<Seq<nat>>, n: nat)
    ensures
        fold::state_after(z, xs, n)[3] == z[3],
        fold::state_after(z, xs, n)[7] == z[7],
        fold::state_after(z, xs, n)[8] == z[8],
        n > 0 ==> fold::state_after(z, xs, n)[6] == 1,
        n > 0 ==> fold::state_after(z, xs, n)[4] == xs[n - 1][1],
    decreases n,
{
    if n > 0 {
        fold_pins(z, xs, (n - 1) as nat);
    }
}

/// The verdict is a running conjunction: it is one after `n` steps if and only if it was at
/// the start and every one of the orders passed its checks. So once it is not one, it never
/// is again.
pub proof fn verdict_is_conjunction(z: Seq<nat>, xs: Seq<Seq<nat>>, n: nat)
    ensures
        fold::state_after(z, xs, n)[0] == 1 <==> z[0] == 1 && forall|i: int|
            0 <= i < n ==> quality::order_passes(fold::state_after(z, xs, i as nat), #[trigger] xs[i]),
    decreases n,
{
    if n > 0 {
        let h = (n - 1) as nat;
        verdict_is_conjunction(z, xs, h);
        if fold::state_after(z, xs, n)[0] == 1 {
            assert forall|i: int| 0 <= i < n implies quality::order_passes(
                fold::state_after(z, xs, i as nat),
                #[trigger] xs[i],
            ) by {
                assert(i < h || i == h);
            }
        } else if z[0] == 1 {
            assert(fold::state_after(z, xs, h)[0] == 1 ==> !quality::order_passes(
                fold::state_after(z, xs, h),
                xs[h as int],
            ));
        }
    }
}

/// Orders in their flat form, as field elements.
pub open spec fn flat_orders(os: Seq<TransportOrder>) -> Seq<Seq<nat>> {
    os.map_values(|o: TransportOrder| o.elements())
}

/// The states of a fold over orders from the initial state, and what each holds of the order
/// before.
proof fn lemma_fold_states(os: Seq<TransportOrder>, r: u64, t_min: u64, t_max: u64, n: nat)
    requires
        n <= os.len(),
    ensures
        is_state(
            fold::state_after(
                fold::initial(r as nat, t_min as nat, t_max as nat),
                flat_orders(os),
                n,
            ),
        ),
        n > 0 ==> fold::state_after(
            fold::initial(r as nat, t_min as nat, t_max as nat),
            flat_orders(os),
            n,
        )[5] == last_end(os[n - 1]),
        n > 0 ==> fold::state_after(
            fold::initial(r as nat, t_min as nat, t_max as nat),
            flat_orders(os),
            n,
        )[4] == os[n - 1].vehicle.id,
    decreases n,
{
    let z0 = fold::initial(r as nat, t_min as nat, t_max as nat);
    let xs = flat_orders(os);
    if n > 0 {
        let h = (n - 1) as nat;
        lemma_fold_states(os, r, t_min, t_max, h);
        step_keeps_state(fold::state_after(z0, xs, h), os[n - 1], r, t_min, t_max);
        span_is_exact(os[n - 1]);
        os[n - 1].lemma_flat();
    } else {
        step_keeps_state(z0, os[0], r, t_min, t_max);
    }
}

/// No order starts before the one before it has ended, if the two have the same vehicle.
pub open spec fn neighbours_ok(os: Seq<TransportOrder>) -> bool {
    forall|i: int|
        0 < i < os.len() && (#[trigger] os[i]).vehicle.id == os[i - 1].vehicle.id ==> last_end(
            os[i - 1],
        ) <= first_start(os[i])
}

/// What a whole fold demands and finds. The constraints of all of its steps can be met, whatever
/// the orders. And the verdict at the end is one if and only if every order is as it should be
/// and no order starts before the one before it, of the same vehicle, has ended.
pub proof fn fold_checks_orders(os: Seq<TransportOrder>, r: u64, t_min: u64, t_max: u64)
    ensures
        ({
            let z = fold::initial(r as nat, t_min as nat, t_max as nat);
            let xs = flat_orders(os);
            &&& forall|i: int|
                0 <= i < os.len() ==> quality::order_fits(
                    fold::state_after(z, xs, i as nat),
                    #[trigger] xs[i],
                )
            &&& fold::state_after(z, xs, os.len())[0] == 1 <==> neighbours_ok(os) && forall|i: int|
                0 <= i < os.len() ==> order_ok(#[trigger] os[i], t_min as nat, t_max as nat)
        }),
{
    let z = fold::initial(r as nat, t_min as nat, t_max as nat);
    let xs = flat_orders(os);
    let n = os.len();
    assert forall|i: int| 0 <= i < n implies #[trigger] xs[i] == os[i].elements()
        && quality::order_fits(fold::state_after(z, xs, i as nat), xs[i]) && quality::order_passes(
        fold::state_after(z, xs, i as nat),
        xs[i],
    ) == (order_ok(os[i], t_min as nat, t_max as nat) && (0 < i && os[i].vehicle.id == os[i
        - 1].vehicle.id ==> last_end(os[i - 1]) <= first_start(os[i]))) by {
        let zi = fold::state_after(z, xs, i as nat);
        lemma_fold_states(os, r, t_min, t_max, i as nat);
        fold_pins(z, xs, i as nat);
        step_checks_order(zi, os[i]);
    }
    verdict_is_conjunction(z, xs, n);
    if fold::state_after(z, xs, n)[0] == 1 {
        assert forall|i: int| 0 <= i < n implies order_ok(
            #[trigger] os[i],
            t_min as nat,
            t_max as nat,
        ) by {
            assert(xs[i] == os[i].elements());
        }
        assert forall|i: int|
            0 < i < n && (#[trigger] os[i]).vehicle.id == os[i - 1].vehicle.id implies last_end(
            os[i - 1],
        ) <= first_start(os[i]) by {
            assert(xs[i] == os[i].elements());
        }
    }
}

/// The orders stand by vehicle and, for each vehicle, by start.
pub open spec fn sorted(os: Seq<TransportOrder>) -> bool {
    forall|i: int, j: int|
        0 <= i < j < os.len() ==> (#[trigger] os[i]).vehicle.id < (#[trigger] os[j]).vehicle.id || (
        os[i].vehicle.id == os[j].vehicle.id && first_start(os[i]) <= first_start(os[j]))
}

/// The time spans of the two orders overlap.
pub open spec fn overlap(a: TransportOrder, b: TransportOrder) -> bool {
    first_start(b) < last_end(a) && first_start(a) < last_end(b)
}

/// An order as it should be ends after its start.
proof fn lemma_span_positive(o: TransportOrder, t_min: nat, t_max: nat)
    requires
        order_ok(o, t_min, t_max),
    ensures
        first_start(o) < last_end(o),
{
    span_is_exact(o);
    assert(action_ok(o.actions@[0], t_min, t_max));
}

/// Between two orders of one vehicle with none of another vehicle between them, the later one
/// starts when the earlier one has ended.
proof fn lemma_chain(os: Seq<TransportOrder>, i: int, j: int, t_min: nat, t_max: nat)
    requires
        0 <= i < j < os.len(),
        neighbours_ok(os),
        forall|k: int| 0 <= k < os.len() ==> order_ok(#[trigger] os[k], t_min, t_max),
        forall|k: int| i <= k <= j ==> (#[trigger] os[k]).vehicle.id == os[i].vehicle.id,
    ensures
        last_end(os[i]) <= first_start(os[j]),
    decreases j - i,
{
    assert(os[j].vehicle.id == os[j - 1].vehicle.id);
    assert(last_end(os[j - 1]) <= first_start(os[j]));
    if i < j - 1 {
        lemma_chain(os, i, j - 1, t_min, t_max);
        lemma_span_positive(os[j - 1], t_min, t_max);
    }
}

/// In a stream that is sorted by vehicle and start, to compare each order with the one before
/// it is to compare all: the verdict of a fold is one if and only if every order is as it should
/// be and no two orders of one vehicle overlap.
pub proof fn sorted_fold_finds_overlaps(
    os: Seq<TransportOrder>,
    r: u64,
    t_min: u64,
    t_max: u64,
)
    requires
        sorted(os),
    ensures
        fold::state_after(
            fold::initial(r as nat, t_min as nat, t_max as nat),
            flat_orders(os),
            os.len(),
        )[0] == 1 <==> (forall|i: int|
            0 <= i < os.len() ==> order_ok(#[trigger] os[i], t_min as nat, t_max as nat)) && (forall|
            i: int,
            j: int,
        |
            0 <= i < j < os.len() && (#[trigger] os[i]).vehicle.id == (
            #[trigger] os[j]).vehicle.id ==> !overlap(os[i], os[j])),
{
    let lo = t_min as nat;
    let hi = t_max as nat;
    fold_checks_orders(os, r, t_min, t_max);
    if forall|i: int| 0 <= i < os.len() ==> order_ok(#[trigger] os[i], lo, hi) {
        if neighbours_ok(os) {
            assert forall|i: int, j: int|
                0 <= i < j < os.len() && (#[trigger] os[i]).vehicle.id == (
                #[trigger] os[j]).vehicle.id implies !overlap(os[i], os[j]) by {
                assert forall|k: int| i <= k <= j implies (#[trigger] os[k]).vehicle.id
                    == os[i].vehicle.id by {
                    assert(k == i || os[i].vehicle.id <= os[k].vehicle.id);
                    assert(k == j || os[k].vehicle.id <= os[j].vehicle.id);
                }
                lemma_chain(os, i, j, lo, hi);
            }
        }
        if forall|i: int, j: int|
            0 <= i < j < os.len() && (#[trigger] os[i]).vehicle.id == (
            #[trigger] os[j]).vehicle.id ==> !overlap(os[i], os[j]) {
            assert forall|i: int|
                0 < i < os.len() && (#[trigger] os[i]).vehicle.id == os[i
                    - 1].vehicle.id implies last_end(os[i - 1]) <= first_start(os[i]) by {
                let h = i - 1;
                lemma_span_positive(os[i], lo, hi);
                assert(os[h].vehicle.id == os[i].vehicle.id);
                assert(!overlap(os[h], os[i]));
            }
        }
    }
}

/// The weight of the goods of every order of the data set.
proof fn lemma_synthetic_load()
    ensures
        load_of(orders::synthetic_goods(), MAX_GOODS as int) == 13_190_000,
{
    let g = orders::synthetic_goods();
    assert(load_of(g, 0) == 0);
    assert(g[0].weight == 1_000_000 && g[0].quantity == 10);
    assert(load_of(g, 1) == 10_000_000);
    assert(g[1].weight == 500_000 && g[1].quantity == 5);
    assert(load_of(g, 2) == 12_500_000);
    assert(g[2].weight == 250_000 && g[2].quantity == 2);
    assert(load_of(g, 3) == 13_000_000);
    assert(g[3].weight == 100_000 && g[3].quantity == 1);
    assert(load_of(g, 4) == 13_100_000);
    assert(g[4].weight == 50_000 && g[4].quantity == 1);
    assert(load_of(g, 5) == 13_150_000);
    assert(g[5].weight == 25_000 && g[5].quantity == 1);
    assert(load_of(g, 6) == 13_175_000);
    assert(g[6].weight == 10_000 && g[6].quantity == 1);
    assert(load_of(g, 7) == 13_185_000);
    assert(g[7].weight == 5_000 && g[7].quantity == 1);
    assert(load_of(g, 8) == 13_190_000);
}

/// Every order of the data set is as it should be.
proof fn lemma_synthetic_ok(o: TransportOrder, i: nat, t_max: nat)
    requires
        orders::is_synthetic(o, i),
        i * 10_000 + 750 <= t_max <= u64::MAX,
    ensures
        order_ok(o, 0, t_max),
{
    assert forall|k: int| 0 <= k < MAX_ACTIONS implies action_ok(
        #[trigger] o.actions@[k],
        0,
        t_max,
    ) by {
        assert(o.actions@[k] == orders::synthetic_action(i * 10_000, k as nat));
    }
    lemma_synthetic_load();
}

/// The data set passes: where the time window starts at zero and holds all of its orders, a
/// fold over any number of them can meet its constraints, and ends in the verdict one.
pub proof fn synthetic_orders_pass(os: Seq<TransportOrder>, r: u64, t_max: u64)
    requires
        forall|i: int| 0 <= i < os.len() ==> orders::is_synthetic(#[trigger] os[i], i as nat),
        os.len() > 0 ==> (os.len() - 1) * 10_000 + 750 <= t_max,
    ensures
        ({
            let z = fold::initial(r as nat, 0, t_max as nat);
            let xs = flat_orders(os);
            &&& forall|i: int|
                0 <= i < os.len() ==> quality::order_fits(
                    fold::state_after(z, xs, i as nat),
                    #[trigger] xs[i],
                )
            &&& fold::state_after(z, xs, os.len())[0] == 1
        }),
{
    assert forall|i: int| 0 <= i < os.len() implies order_ok(#[trigger] os[i], 0, t_max as nat) by {
        lemma_synthetic_ok(os[i], i as nat, t_max as nat);
    }
    assert forall|i: int|
        0 < i < os.len() && (#[trigger] os[i]).vehicle.id == os[i - 1].vehicle.id implies last_end(
        os[i - 1],
    ) <= first_start(os[i]) by {
        assert(orders::is_synthetic(os[i], i as nat));
        assert(orders::is_synthetic(os[i - 1], (i - 1) as nat));
    }
    fold_checks_orders(os, r, 0, t_max);
}

/// The fields of the first `n` orders of `xs`, one order after the other.
pub open spec fn stream(xs: Seq<Seq<nat>>, n: nat) -> Seq<nat>
    decreases n,
{
    if n == 0 {
        seq![]
    } else {
        stream(xs, (n - 1) as nat) + xs[n - 1]
    }
}

/// The polynomial whose coefficients are the first `k` of `fields`, at `r`.
pub open spec fn polynomial(fields: Seq<nat>, r: nat, k: nat) -> int
    decreases k,
{
    if k == 0 {
        0
    } else {
        polynomial(fields, r, (k - 1) as nat) + pow(r as int, (k - 1) as nat) * fields[k - 1]
    }
}

/// Only the first `k` fields count.
proof fn lemma_polynomial_prefix(fields: Seq<nat>, more: Seq<nat>, r: nat, k: nat)
    requires
        k <= fields.len(),
    ensures
        polynomial(fields + more, r, k) == polynomial(fields, r, k),
    decreases k,
{
    if k > 0 {
        lemma_polynomial_prefix(fields, more, r, (k - 1) as nat);
    }
}

/// A step raises the power of the challenge by one with every field.
proof fn lemma_power(pw: nat, r: nat, e: nat, k: nat)
    requires
        pw == pow(r as int, e) % (field::modulus() as int),
    ensures
        quality::power_after(pw, r, k as int) == pow(r as int, e + k) % (field::modulus() as int),
    decreases k,
{
    if k > 0 {
        let m = field::modulus() as int;
        let h = (k - 1) as nat;
        lemma_power(pw, r, e, h);
        lemma_pow_adds(r as int, e + h, 1);
        lemma_pow1(r as int);
        lemma_mul_mod_noop_left(pow(r as int, e + h), r as int, m);
    }
}

/// A step takes the fields of `x` into the fingerprint of the `e` fields before them.
proof fn lemma_fingerprint(phi: nat, pw: nat, r: nat, x: Seq<nat>, fields: Seq<nat>, e: nat, k: nat)
    requires
        pw == pow(r as int, e) % (field::modulus() as int),
        phi == polynomial(fields, r, e) % (field::modulus() as int),
        k <= x.len(),
        forall|i: int| 0 <= i < x.len() ==> fields[e + i] == #[trigger] x[i],
    ensures
        quality::fingerprint_after(phi, pw, r, x, k as int) == polynomial(fields, r, e + k) % (
        field::modulus() as int),
    decreases k,
{
    if k > 0 {
        let m = field::modulus() as int;
        let h = (k - 1) as nat;
        lemma_fingerprint(phi, pw, r, x, fields, e, h);
        lemma_power(pw, r, e, h);
        let sum = polynomial(fields, r, e + h);
        let p = pow(r as int, e + h);
        let c = x[h as int] as int;
        assert(fields[e + h as int] == x[h as int]);
        lemma_mul_mod_noop_left(p, c, m);
        lemma_add_mod_noop(sum, p * c, m);
    }
}

/// The fingerprint of a fold is the polynomial whose coefficients are all fields of all orders,
/// in their canonical order, evaluated at the challenge; and the power that a fold has reached
/// is that of the number of fields.
pub proof fn fingerprint_is_polynomial(
    xs: Seq<Seq<nat>>,
    n: nat,
    r: nat,
    t_min: nat,
    t_max: nat,
)
    requires
        n <= xs.len(),
        forall|i: int| 0 <= i < n ==> (#[trigger] xs[i]).len() == FIELDS_PER_ORDER,
    ensures
        stream(xs, n).len() == FIELDS_PER_ORDER * n,
        fold::state_after(fold::initial(r, t_min, t_max), xs, n)[1] == polynomial(
            stream(xs, n),
            r,
            (FIELDS_PER_ORDER * n) as nat,
        ) % (field::modulus() as int),
        fold::state_after(fold::initial(r, t_min, t_max), xs, n)[2] == pow(
            r as int,
            (FIELDS_PER_ORDER * n) as nat,
        ) % (field::modulus() as int),
    decreases n,
{
    let z0 = fold::initial(r, t_min, t_max);
    if n == 0 {
        lemma_mul_by_zero_is_zero(FIELDS_PER_ORDER as int);
        assert(FIELDS_PER_ORDER * n == 0);
        lemma_pow0(r as int);
    } else {
        let h = (n - 1) as nat;
        let e = (FIELDS_PER_ORDER * h) as nat;
        let z = fold::state_after(z0, xs, h);
        let x = xs[h as int];
        let fields = stream(xs, n);
        lemma_mul_is_distributive_add(FIELDS_PER_ORDER as int, h as int, 1);
        lemma_mul_nonnegative(FIELDS_PER_ORDER as int, h as int);
        assert(FIELDS_PER_ORDER * n == e + FIELDS_PER_ORDER);
        fingerprint_is_polynomial(xs, h, r, t_min, t_max);
        fold_pins(z0, xs, h);
        lemma_polynomial_prefix(stream(xs, h), x, r, e);
        assert(fields == stream(xs, h) + x);
        lemma_power(z[2], r, e, FIELDS_PER_ORDER as nat);
        lemma_fingerprint(z[1], z[2], r, x, fields, e, FIELDS_PER_ORDER as nat);
    }
}

/// The flat form holds every field of an order but the marks of what is active: orders with
/// the same flat form agree in all of them.
pub proof fn flat_form_is_faithful(a: TransportOrder, b: TransportOrder)
    requires
        a.elements() == b.elements(),
    ensures
        a.id == b.id,
        a.vehicle == b.vehicle,
        forall|k: int|
            0 <= k < MAX_ACTIONS ==> (Action { active: true, ..#[trigger] a.actions@[k] }) == (
            Action { active: true, ..b.actions@[k] }),
        forall|k: int|
            0 <= k < MAX_GOODS ==> (Good { active: true, ..#[trigger] a.goods@[k] }) == (
            Good { active: true, ..b.goods@[k] }),
{
    let x = a.elements();
    a.lemma_flat();
    b.lemma_flat();
    assert(x[0] == a.id && x[0] == b.id);
    assert(x[1] == a.vehicle.id && x[1] == b.vehicle.id);
    assert(x[2] == a.vehicle.capacity && x[2] == b.vehicle.capacity);
    assert forall|k: int| 0 <= k < MAX_ACTIONS implies (Action {
        active: true,
        ..#[trigger] a.actions@[k]
    }) == (Action { active: true, ..b.actions@[k] }) by {
        lemma_action_elements(a, k);
        lemma_action_elements(b, k);
    }
    assert forall|k: int| 0 <= k < MAX_GOODS implies (Good {
        active: true,
        ..#[trigger] a.goods@[k]
    }) == (Good { active: true, ..b.goods@[k] }) by {
        lemma_good_elements(a, k);
        lemma_good_elements(b, k);
    }
}

/// The elements of an order in its flat form, whatever they are.
pub open spec fn is_flat(x: Seq<nat>) -> bool {
    &&& x.len() == FIELDS_PER_ORDER
    &&& forall|i: int| 0 <= i < x.len() ==> #[trigger] x[i] < field::modulus()
}

/// Action `k` starts and ends within the time window, and ends after its start.
pub open spec fn times_ok(x: Seq<nat>, k: int, t_min: nat, t_max: nat) -> bool {
    t_min <= x[quality::action_at(k) + 2] < x[quality::action_at(k) + 3] <= t_max
}

/// Whatever field elements stand for the times of an action: if its checks pass and what they
/// enforce holds, the action lies in the time window.
proof fn lemma_times(x: Seq<nat>, k: int, t_min: nat, t_max: nat)
    requires
        is_flat(x),
        0 <= k < MAX_ACTIONS,
        t_min <= u64::MAX,
        t_max <= u64::MAX,
        quality::action_fits(x, k, t_min, t_max),
        quality::action_passes(x, k, t_min, t_max),
    ensures
        times_ok(x, k, t_min, t_max),
{
    let m = field::modulus() as int;
    let n = TIME_BITS as nat;
    let s = x[quality::action_at(k) + 2] as int;
    let e = x[quality::action_at(k) + 3] as int;
    lemma2_to64();
    leq_bounds_difference(e as nat, s as nat, n);
    leq_bounds_difference(t_min, s as nat, n);
    leq_bounds_difference(e as nat, t_max, n);
    lemma_difference(t_min as int, s);
    lemma_difference(e, s);
    lemma_difference(s, e);
    lemma_difference(e, t_max as int);
}

/// The difference of two field elements.
proof fn lemma_difference(a: int, b: int)
    requires
        0 <= a < field::modulus(),
        0 <= b < field::modulus(),
    ensures
        (b - a) % (field::modulus() as int) == if a <= b {
            b - a
        } else {
            b - a + field::modulus()
        },
{
    let m = field::modulus() as int;
    if a <= b {
        lemma_small_mod((b - a) as nat, m as nat);
    } else {
        lemma_mod_add_multiples_vanish(b - a, m);
        lemma_small_mod((b - a + m) as nat, m as nat);
    }
}

/// The time span that a step works out covers the first `k` actions, if they lie in the time
/// window.
proof fn lemma_window_covers(x: Seq<nat>, k: int, t_min: nat, t_max: nat)
    requires
        1 <= k <= MAX_ACTIONS,
        t_max <= u64::MAX,
        forall|j: int| 0 <= j < k ==> #[trigger] times_ok(x, j, t_min, t_max),
    ensures
        quality::earliest(x, k) <= u64::MAX,
        quality::latest(x, k) <= u64::MAX,
        forall|j: int|
            0 <= j < k ==> quality::earliest(x, k) <= x[#[trigger] quality::action_at(j) + 2]
                && x[quality::action_at(j) + 3] <= quality::latest(x, k),
    decreases k,
{
    assert(times_ok(x, k - 1, t_min, t_max));
    assert(times_ok(x, 0, t_min, t_max));
    if k > 1 {
        lemma_window_covers(x, k - 1, t_min, t_max);
        lemma_leq_time(x[quality::action_at(k - 1) + 2], quality::earliest(x, k - 1));
        lemma_leq_time(quality::latest(x, k - 1), x[quality::action_at(k - 1) + 3]);
    }
}

/// Every action of an accepted order lies in the time window.
proof fn lemma_accepted_times(z: Seq<nat>, x: Seq<nat>)
    requires
        is_flat(x),
        z[7] <= u64::MAX,
        z[8] <= u64::MAX,
        quality::order_fits(z, x),
        quality::order_passes(z, x),
    ensures
        forall|k: int| 0 <= k < MAX_ACTIONS ==> #[trigger] times_ok(x, k, z[7], z[8]),
{
    assert forall|k: int| 0 <= k < MAX_ACTIONS implies #[trigger] times_ok(x, k, z[7], z[8]) by {
        assert(quality::action_fits(x, k, z[7], z[8]));
        assert(quality::action_passes(x, k, z[7], z[8]));
        lemma_times(x, k, z[7], z[8]);
    }
}

/// No action of an accepted order starts before the order before it, of the same vehicle, has
/// ended.
proof fn lemma_accepted_start(z: Seq<nat>, x: Seq<nat>)
    requires
        is_flat(x),
        z[5] <= u64::MAX,
        z[7] <= u64::MAX,
        z[8] <= u64::MAX,
        z[6] == 1,
        z[4] == x[1],
        quality::order_fits(z, x),
        quality::order_passes(z, x),
    ensures
        forall|k: int|
            0 <= k < MAX_ACTIONS ==> z[5] <= x[#[trigger] quality::action_at(k) + 2],
{
    let last = MAX_ACTIONS as int;
    lemma_accepted_times(z, x);
    lemma_window_covers(x, last, z[7], z[8]);
    assert(quality::adjacency_passes(z, x));
    lemma_leq_time(z[5], quality::earliest(x, last));
}

/// No choice of field elements gets around the checks of times. In a fold whose constraints
/// are met and that ends in the verdict one, whatever elements stand for the orders, every
/// action lies in the time window and ends after its start, and no order starts before the
/// one before it, of the same vehicle, has ended.
pub proof fn accepted_times_are_sound(
    xs: Seq<Seq<nat>>,
    n: nat,
    r: nat,
    t_min: u64,
    t_max: u64,
)
    requires
        n <= xs.len(),
        forall|i: int| 0 <= i < n ==> is_flat(#[trigger] xs[i]),
        forall|i: int|
            0 <= i < n ==> quality::order_fits(
                fold::state_after(
                    fold::initial(r, t_min as nat, t_max as nat),
                    xs,
                    i as nat,
                ),
                #[trigger] xs[i],
            ),
        fold::state_after(fold::initial(r, t_min as nat, t_max as nat), xs, n)[0] == 1,
    ensures
        forall|i: int, k: int|
            0 <= i < n && 0 <= k < MAX_ACTIONS ==> #[trigger] times_ok(
                xs[i],
                k,
                t_min as nat,
                t_max as nat,
            ),
        forall|i: int, j: int, k: int|
            0 < i < n && xs[i][1] == xs[i - 1][1] && 0 <= j < MAX_ACTIONS && 0 <= k < MAX_ACTIONS
                ==> xs[i - 1][#[trigger] quality::action_at(j) + 3] <= #[trigger] xs[i][#[trigger] quality::action_at(k) + 2],
{
    let z0 = fold::initial(r, t_min as nat, t_max as nat);
    let last = MAX_ACTIONS as int;
    verdict_is_conjunction(z0, xs, n);
    assert forall|i: int, k: int| 0 <= i < n && 0 <= k < MAX_ACTIONS implies #[trigger] times_ok(
        xs[i],
        k,
        t_min as nat,
        t_max as nat,
    ) by {
        fold_pins(z0, xs, i as nat);
        assert(is_flat(xs[i]));
        lemma_accepted_times(fold::state_after(z0, xs, i as nat), xs[i]);
    }
    assert forall|i: int, j: int, k: int|
        0 < i < n && xs[i][1] == xs[i - 1][1] && 0 <= j < MAX_ACTIONS && 0 <= k
            < MAX_ACTIONS implies xs[i - 1][#[trigger] quality::action_at(j) + 3]
        <= #[trigger] xs[i][#[trigger] quality::action_at(k) + 2] by {
        let z = fold::state_after(z0, xs, i as nat);
        fold_pins(z0, xs, i as nat);
        lemma_window_covers(xs[i - 1], last, t_min as nat, t_max as nat);
        assert(z[5] == quality::latest(xs[i - 1], last));
        assert(is_flat(xs[i]));
        lemma_accepted_start(z, xs[i]);
    }
}

} // verus!
