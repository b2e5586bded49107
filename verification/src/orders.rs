//! A data set of well-formed orders, any number of them.
use vstd::prelude::*;
use crate::otm::{Action, Good, Location, TransportOrder, Vehicle, ACTION_LOAD, MAX_ACTIONS};

verus! {

/// Action `k` of an order whose time window starts at `base`.
pub open spec fn synthetic_action(base: nat, k: nat) -> Action {
    Action {
        id: (1 + k) as u64,
        active: true,
        location: Location { id: 1, longitude: 6_852_094, latitude: 52_241_327 },
        start_time: (base + k * 100) as u64,
        end_time: (base + k * 100 + 50) as u64,
        action_type: ACTION_LOAD,
    }
}

/// The goods of every order.
pub open spec fn synthetic_goods() -> Seq<Good> {
    seq![
        Good { id: 1, active: true, weight: 1_000_000, quantity: 10 },
        Good { id: 2, active: true, weight: 500_000, quantity: 5 },
        Good { id: 3, active: true, weight: 250_000, quantity: 2 },
        Good { id: 4, active: true, weight: 100_000, quantity: 1 },
        Good { id: 5, active: true, weight: 50_000, quantity: 1 },
        Good { id: 6, active: true, weight: 25_000, quantity: 1 },
        Good { id: 7, active: true, weight: 10_000, quantity: 1 },
        Good { id: 8, active: true, weight: 5_000, quantity: 1 },
    ]
}

/// `o` is order `i` of the data set. Each order has a time window of its own, after that of
/// the order before it; five vehicles take turns.
pub open spec fn is_synthetic(o: TransportOrder, i: nat) -> bool {
    &&& o.id == i + 1
    &&& o.active
    &&& o.vehicle.id == i % 5 + 1
    &&& o.vehicle.capacity == 40_000_000
    &&& forall|k: int|
        0 <= k < MAX_ACTIONS ==> #[trigger] o.actions@[k] == synthetic_action(i * 10_000, k as nat)
    &&& o.goods@ == synthetic_goods()
}

fn mk_action(base: u64, k: u64) -> (a: Action)
    requires
        k < MAX_ACTIONS,
        base + k * 100 + 50 <= u64::MAX,
    ensures
        a == synthetic_action(base as nat, k as nat),
{
    Action {
        id: 1 + k,
        active: true,
        location: Location { id: 1, longitude: 6_852_094, latitude: 52_241_327 },
        start_time: base + k * 100,
        end_time: base + k * 100 + 50,
        action_type: ACTION_LOAD,
    }
}

/// The first `n` orders of the data set.
pub fn synthetic_orders(n: usize) -> (out: Vec<TransportOrder>)
    requires
        n > 0 ==> (n - 1) * 10_000 + 750 <= u64::MAX,
    ensures
        out@.len() == n,
        forall|i: int| 0 <= i < n ==> is_synthetic(#[trigger] out@[i], i as nat),
        forall|i: int|
            0 <= i < n ==> (#[trigger] out@[i]).id == i + 1 && out@[i].active
                && out@[i].vehicle.id == i % 5 + 1 && out@[i].vehicle.capacity == 40_000_000,
        forall|i: int, k: int|
            0 <= i < n && 0 <= k < 8 ==> (#[trigger] out@[i].actions@[k]).active
                && out@[i].actions@[k].id == k + 1 && out@[i].actions@[k].action_type == 1
                && out@[i].actions@[k].start_time == 10_000 * i + 100 * k
                && out@[i].actions@[k].end_time == 10_000 * i + 100 * k + 50
                && out@[i].actions@[k].location.id == 1 && out@[i].actions@[k].location.latitude
                == 52_241_327 && out@[i].actions@[k].location.longitude == 6_852_094,
        forall|i: int, k: int|
            0 <= i < n && 0 <= k < 8 ==> (#[trigger] out@[i].goods@[k]).active
                && out@[i].goods@[k].id == k + 1,
        forall|i: int|
            0 <= i < n ==> (#[trigger] out@[i]).goods@[0].weight == 1_000_000
                && out@[i].goods@[0].quantity == 10 && out@[i].goods@[1].weight == 500_000
                && out@[i].goods@[1].quantity == 5 && out@[i].goods@[2].weight == 250_000
                && out@[i].goods@[2].quantity == 2 && out@[i].goods@[3].weight == 100_000
                && out@[i].goods@[3].quantity == 1 && out@[i].goods@[4].weight == 50_000
                && out@[i].goods@[4].quantity == 1 && out@[i].goods@[5].weight == 25_000
                && out@[i].goods@[5].quantity == 1 && out@[i].goods@[6].weight == 10_000
                && out@[i].goods@[6].quantity == 1 && out@[i].goods@[7].weight == 5_000
                && out@[i].goods@[7].quantity == 1,
{
    let mut out: Vec<TransportOrder> = Vec::with_capacity(n);
    let mut i: usize = 0;
    while i < n
        invariant
            i <= n,
            n > 0 ==> (n - 1) * 10_000 + 750 <= u64::MAX,
            out@.len() == i,
            forall|j: int| 0 <= j < i ==> is_synthetic(#[trigger] out@[j], j as nat),
        decreases n - i,
    {
        let base: u64 = (i as u64) * 10_000;  // disjoint, monotone time windows
        let o = TransportOrder {
            id: (i as u64) + 1,
            active: true,
            vehicle: Vehicle { id: ((i as u64) % 5) + 1, capacity: 40_000_000 },
            actions: [
                mk_action(base, 0),
                mk_action(base, 1),
                mk_action(base, 2),
                mk_action(base, 3),
                mk_action(base, 4),
                mk_action(base, 5),
                mk_action(base, 6),
                mk_action(base, 7),
            ],
            goods: [
                Good { id: 1, active: true, weight: 1_000_000, quantity: 10 },
                Good { id: 2, active: true, weight: 500_000, quantity: 5 },
                Good { id: 3, active: true, weight: 250_000, quantity: 2 },
                Good { id: 4, active: true, weight: 100_000, quantity: 1 },
                Good { id: 5, active: true, weight: 50_000, quantity: 1 },
                Good { id: 6, active: true, weight: 25_000, quantity: 1 },
                Good { id: 7, active: true, weight: 10_000, quantity: 1 },
                Good { id: 8, active: true, weight: 5_000, quantity: 1 },
            ],
        };
        assert(o.goods@ == synthetic_goods());
        out.push(o);
        i = i + 1;
    }
    proof {
        assert forall|i: int| 0 <= i < n implies is_synthetic(#[trigger] out@[i], i as nat) by {}
        assert forall|i: int, k: int| 0 <= i < n && 0 <= k < 8 implies (
        #[trigger] out@[i].actions@[k]) == synthetic_action(i as nat * 10_000, k as nat) by {
            assert(is_synthetic(out@[i], i as nat));
        }
        assert forall|i: int, k: int| 0 <= i < n && 0 <= k < 8 implies (
        #[trigger] out@[i].goods@[k]) == synthetic_goods()[k] by {
            assert(is_synthetic(out@[i], i as nat));
        }
    }
    out
}

} // verus!
