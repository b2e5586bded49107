//! What one step computes, on the integers of field elements.
//!
//! `z` is a state of nine elements and `x` an order in its flat form. The state holds, from
//! the first element on: whether every order so far passed; the fingerprint; the current
//! power of the challenge; the challenge; the vehicle of the order before; its latest end
//! time; whether there was an order before; the lower and the upper bound of the time
//! window.
//!
//! Comparisons are those of the gadget, on field elements: `leq_bit` is its answer and
//! `leq_fits` what it enforces. Where the fields are 64-bit integers these are the ordinary
//! comparisons, which is shown with the laws.
use vstd::prelude::*;
use crate::field;
use crate::gadgets;
use crate::otm::{FIELDS_PER_ORDER, MAX_ACTIONS, MAX_GOODS};

verus! {

/// The elements of a state.
pub const STATE_LEN: usize = 9;

/// Timestamps, latitudes and longitudes have 64 bits.
pub const TIME_BITS: usize = 64;

/// The bits of the weight of all goods of an order: eight products of two 64-bit integers.
pub const SUM_BITS: usize = 131;

/// The private variables that a step adds to a system.
pub const STEP_WITNESSES: usize = 4056;

/// The constraints that a step adds to a system.
pub const STEP_CONSTRAINTS: usize = 4114;

pub const MAX_LATITUDE: u64 = 90_000_000;

pub const MAX_LONGITUDE: u64 = 180_000_000;

/// The place of the first field of action `k`.
pub open spec fn action_at(k: int) -> int {
    3 + 7 * k
}

/// The place of the first field of good `k`.
pub open spec fn good_at(k: int) -> int {
    3 + 7 * MAX_ACTIONS + 3 * k
}

/// Action `k` passes its checks: it and its location have an id, its type is one of the
/// three, it ends after its start and within the time window, and its location lies within
/// the bounds.
pub open spec fn action_passes(x: Seq<nat>, k: int, t_min: nat, t_max: nat) -> bool {
    let at = action_at(k);
    &&& x[at] != 0
    &&& x[at + 4] != 0
    &&& x[at + 1] == 1 || x[at + 1] == 2 || x[at + 1] == 3
    &&& !gadgets::leq_bit(x[at + 3], x[at + 2], TIME_BITS as nat)
    &&& gadgets::leq_bit(t_min, x[at + 2], TIME_BITS as nat)
    &&& gadgets::leq_bit(x[at + 3], t_max, TIME_BITS as nat)
    &&& gadgets::leq_bit(x[at + 5], MAX_LATITUDE as nat, TIME_BITS as nat)
    &&& gadgets::leq_bit(x[at + 6], MAX_LONGITUDE as nat, TIME_BITS as nat)
}

/// What the comparisons of action `k` enforce.
pub open spec fn action_fits(x: Seq<nat>, k: int, t_min: nat, t_max: nat) -> bool {
    let at = action_at(k);
    &&& gadgets::leq_fits(x[at + 3], x[at + 2], TIME_BITS as nat)
    &&& gadgets::leq_fits(t_min, x[at + 2], TIME_BITS as nat)
    &&& gadgets::leq_fits(x[at + 3], t_max, TIME_BITS as nat)
    &&& gadgets::leq_fits(x[at + 5], MAX_LATITUDE as nat, TIME_BITS as nat)
    &&& gadgets::leq_fits(x[at + 6], MAX_LONGITUDE as nat, TIME_BITS as nat)
}

/// The earliest start of the first `k` actions.
pub open spec fn earliest(x: Seq<nat>, k: int) -> nat
    decreases k,
{
    let start = x[action_at(k - 1) + 2];
    if k <= 1 {
        x[action_at(0) + 2]
    } else if gadgets::leq_bit(start, earliest(x, k - 1), TIME_BITS as nat) {
        start
    } else {
        earliest(x, k - 1)
    }
}

/// The latest end of the first `k` actions.
pub open spec fn latest(x: Seq<nat>, k: int) -> nat
    decreases k,
{
    let end = x[action_at(k - 1) + 3];
    if k <= 1 {
        x[action_at(0) + 3]
    } else if gadgets::leq_bit(latest(x, k - 1), end, TIME_BITS as nat) {
        end
    } else {
        latest(x, k - 1)
    }
}

/// What the comparisons enforce that take action `k` into the time span of the actions
/// before it.
pub open spec fn widening_fits(x: Seq<nat>, k: int) -> bool {
    &&& gadgets::leq_fits(x[action_at(k) + 2], earliest(x, k), TIME_BITS as nat)
    &&& gadgets::leq_fits(latest(x, k), x[action_at(k) + 3], TIME_BITS as nat)
}

/// The first `n` actions pass their checks.
pub open spec fn actions_pass(x: Seq<nat>, n: int, t_min: nat, t_max: nat) -> bool {
    forall|k: int| 0 <= k < n ==> #[trigger] action_passes(x, k, t_min, t_max)
}

/// What the comparisons of the first `n` actions enforce.
pub open spec fn actions_fit(x: Seq<nat>, n: int, t_min: nat, t_max: nat) -> bool {
    &&& forall|k: int| 0 <= k < n ==> #[trigger] action_fits(x, k, t_min, t_max)
    &&& forall|k: int| 1 <= k < n ==> #[trigger] widening_fits(x, k)
}

/// Good `k` passes its checks: it has an id, a quantity and a weight.
pub open spec fn good_passes(x: Seq<nat>, k: int) -> bool {
    let at = good_at(k);
    x[at] != 0 && x[at + 1] != 0 && x[at + 2] != 0
}

/// The first `n` goods pass their checks.
pub open spec fn goods_pass(x: Seq<nat>, n: int) -> bool {
    forall|k: int| 0 <= k < n ==> #[trigger] good_passes(x, k)
}

/// The weight of the first `k` goods, as a field element.
pub open spec fn weight(x: Seq<nat>, k: int) -> nat
    decreases k,
{
    if k <= 0 {
        0
    } else {
        (weight(x, k - 1) + (x[good_at(k - 1) + 2] * x[good_at(k - 1) + 1]) % field::modulus())
            % field::modulus()
    }
}

/// An order of the vehicle of the order before does not start before that one ended.
pub open spec fn adjacency_passes(z: Seq<nat>, x: Seq<nat>) -> bool {
    x[1] == z[4] && z[6] == 1 ==> gadgets::leq_bit(
        z[5],
        earliest(x, MAX_ACTIONS as int),
        TIME_BITS as nat,
    )
}

/// What the adjacency check enforces, whatever the vehicles: that the marker of an order before
/// is zero or one, and what its comparison enforces.
pub open spec fn adjacency_fits(z: Seq<nat>, x: Seq<nat>) -> bool {
    &&& z[6] <= 1
    &&& gadgets::leq_fits(z[5], earliest(x, MAX_ACTIONS as int), TIME_BITS as nat)
}

/// The order passes every check.
pub open spec fn order_passes(z: Seq<nat>, x: Seq<nat>) -> bool {
    &&& x[0] != 0
    &&& x[1] != 0
    &&& x[2] != 0
    &&& actions_pass(x, MAX_ACTIONS as int, z[7], z[8])
    &&& goods_pass(x, MAX_GOODS as int)
    &&& gadgets::leq_bit(weight(x, MAX_GOODS as int), x[2], SUM_BITS as nat)
    &&& adjacency_passes(z, x)
}

/// What a step enforces: that the verdict so far is zero or one, and what the checks enforce.
pub open spec fn order_fits(z: Seq<nat>, x: Seq<nat>) -> bool {
    &&& z[0] <= 1
    &&& actions_fit(x, MAX_ACTIONS as int, z[7], z[8])
    &&& gadgets::leq_fits(weight(x, MAX_GOODS as int), x[2], SUM_BITS as nat)
    &&& adjacency_fits(z, x)
}

/// The power of the challenge after `k` fields.
pub open spec fn power_after(pw: nat, r: nat, k: int) -> nat
    decreases k,
{
    if k <= 0 {
        pw
    } else {
        (power_after(pw, r, k - 1) * r) % field::modulus()
    }
}

/// The fingerprint after the first `k` fields.
pub open spec fn fingerprint_after(phi: nat, pw: nat, r: nat, x: Seq<nat>, k: int) -> nat
    decreases k,
{
    if k <= 0 {
        phi
    } else {
        (fingerprint_after(phi, pw, r, x, k - 1) + (power_after(pw, r, k - 1) * x[k - 1])
            % field::modulus()) % field::modulus()
    }
}

/// The state after the order `x` from the state `z`.
pub open spec fn next_state(z: Seq<nat>, x: Seq<nat>) -> Seq<nat> {
    seq![
        if z[0] == 1 && order_passes(z, x) {
            1
        } else {
            0
        },
        fingerprint_after(z[1], z[2], z[3], x, FIELDS_PER_ORDER as int),
        power_after(z[2], z[3], FIELDS_PER_ORDER as int),
        z[3],
        x[1],
        latest(x, MAX_ACTIONS as int),
        1,
        z[7],
        z[8],
    ]
}

} // verus!
