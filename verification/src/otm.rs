//! Transport orders, and the canonical order in which their fields are handed to a
//! circuit.
use vstd::prelude::*;
use crate::field;
use crate::field::Fr;

verus! {

pub const MAX_ACTIONS: usize = 8;

pub const MAX_GOODS: usize = 8;

/// The fields of one order in its flat form: three of its own, seven of each action and
/// three of each good. Whether a part is active is not among them.
pub const FIELDS_PER_ORDER: usize = 3 + 7 * MAX_ACTIONS + 3 * MAX_GOODS;

pub const ACTION_LOAD: u64 = 1;

pub const ACTION_UNLOAD: u64 = 2;

pub const ACTION_WAYPOINT: u64 = 3;

pub type ID = u64;

pub type ACTIVE = bool;

#[derive(Clone, Debug)]
pub struct Location {
    pub id: ID,
    pub longitude: u64,
    pub latitude: u64,
}

#[derive(Clone, Debug)]
pub struct Action {
    pub id: ID,
    pub active: ACTIVE,
    pub location: Location,
    pub start_time: u64,
    pub end_time: u64,
    pub action_type: u64,
}

#[derive(Clone, Debug)]
pub struct Good {
    pub id: ID,
    pub active: ACTIVE,
    pub weight: u64,
    pub quantity: u64,
}

#[derive(Clone, Debug)]
pub struct Vehicle {
    pub id: ID,
    pub capacity: u64,
}

#[derive(Clone, Debug)]
pub struct TransportOrder {
    pub id: ID,
    pub active: ACTIVE,
    pub vehicle: Vehicle,
    pub actions: [Action; MAX_ACTIONS],
    pub goods: [Good; MAX_GOODS],
}

impl Action {
    /// The fields of an action in their canonical order.
    pub open spec fn flat(self) -> Seq<u64> {
        seq![
            self.id,
            self.action_type,
            self.start_time,
            self.end_time,
            self.location.id,
            self.location.latitude,
            self.location.longitude,
        ]
    }
}

impl Good {
    /// The fields of a good in their canonical order.
    pub open spec fn flat(self) -> Seq<u64> {
        seq![self.id, self.quantity, self.weight]
    }
}

/// The fields of the first `k` actions, one action after the other.
pub open spec fn flat_actions(actions: Seq<Action>, k: nat) -> Seq<u64>
    decreases k,
{
    if k == 0 {
        seq![]
    } else {
        flat_actions(actions, (k - 1) as nat) + actions[k - 1].flat()
    }
}

/// The fields of the first `k` goods, one good after the other.
pub open spec fn flat_goods(goods: Seq<Good>, k: nat) -> Seq<u64>
    decreases k,
{
    if k == 0 {
        seq![]
    } else {
        flat_goods(goods, (k - 1) as nat) + goods[k - 1].flat()
    }
}

/// Where each field of the first `k` actions stands.
pub proof fn lemma_flat_actions(actions: Seq<Action>, k: nat)
    ensures
        flat_actions(actions, k).len() == 7 * k,
        forall|i: int, j: int|
            0 <= i < k && 0 <= j < 7 ==> #[trigger] flat_actions(actions, k)[7 * i + j]
                == #[trigger] actions[i].flat()[j],
    decreases k,
{
    if k > 0 {
        let h = (k - 1) as nat;
        lemma_flat_actions(actions, h);
        assert forall|i: int, j: int| 0 <= i < k && 0 <= j < 7 implies #[trigger] flat_actions(
            actions,
            k,
        )[7 * i + j] == #[trigger] actions[i].flat()[j] by {
            if i < h {
                assert(flat_actions(actions, h)[7 * i + j] == actions[i].flat()[j]);
            }
        }
    }
}

/// Where each field of the first `k` goods stands.
pub proof fn lemma_flat_goods(goods: Seq<Good>, k: nat)
    ensures
        flat_goods(goods, k).len() == 3 * k,
        forall|i: int, j: int|
            0 <= i < k && 0 <= j < 3 ==> #[trigger] flat_goods(goods, k)[3 * i + j]
                == #[trigger] goods[i].flat()[j],
    decreases k,
{
    if k > 0 {
        let h = (k - 1) as nat;
        lemma_flat_goods(goods, h);
        assert forall|i: int, j: int| 0 <= i < k && 0 <= j < 3 implies #[trigger] flat_goods(
            goods,
            k,
        )[3 * i + j] == #[trigger] goods[i].flat()[j] by {
            if i < h {
                assert(flat_goods(goods, h)[3 * i + j] == goods[i].flat()[j]);
            }
        }
    }
}

impl TransportOrder {
    /// The fields of an order in their canonical order.
    pub open spec fn flat(self) -> Seq<u64> {
        seq![self.id, self.vehicle.id, self.vehicle.capacity] + flat_actions(
            self.actions@,
            MAX_ACTIONS as nat,
        ) + flat_goods(self.goods@, MAX_GOODS as nat)
    }

    /// The fields of an order as the integers of field elements.
    pub open spec fn elements(self) -> Seq<nat> {
        self.flat().map_values(|x: u64| x as nat)
    }

    /// Every flat order has the same number of fields, and each stands in its place.
    pub proof fn lemma_flat(self)
        ensures
            self.flat().len() == FIELDS_PER_ORDER,
            self.flat()[0] == self.id,
            self.flat()[1] == self.vehicle.id,
            self.flat()[2] == self.vehicle.capacity,
            forall|i: int, j: int|
                0 <= i < MAX_ACTIONS && 0 <= j < 7 ==> self.flat()[3 + 7 * i + j]
                    == #[trigger] self.actions@[i].flat()[j],
            forall|i: int, j: int|
                0 <= i < MAX_GOODS && 0 <= j < 3 ==> self.flat()[3 + 7 * MAX_ACTIONS + 3 * i + j]
                    == #[trigger] self.goods@[i].flat()[j],
    {
        lemma_flat_actions(self.actions@, MAX_ACTIONS as nat);
        lemma_flat_goods(self.goods@, MAX_GOODS as nat);
        assert forall|i: int, j: int| 0 <= i < MAX_ACTIONS && 0 <= j < 7 implies self.flat()[3 + 7
            * i + j] == #[trigger] self.actions@[i].flat()[j] by {
            assert(flat_actions(self.actions@, MAX_ACTIONS as nat)[7 * i + j]
                == self.actions@[i].flat()[j]);
        }
        assert forall|i: int, j: int| 0 <= i < MAX_GOODS && 0 <= j < 3 implies self.flat()[3 + 7
            * MAX_ACTIONS + 3 * i + j] == #[trigger] self.goods@[i].flat()[j] by {
            assert(flat_goods(self.goods@, MAX_GOODS as nat)[3 * i + j]
                == self.goods@[i].flat()[j]);
        }
    }

    /// Which field of an order stands in which place of its flat form, by name; and the
    /// elements of the order are its flat form, place by place.
    pub proof fn lemma_flat_by_name(self)
        ensures
            self.flat().len() == 83,
            self.elements().len() == 83,
            forall|i: int| 0 <= i < 83 ==> #[trigger] self.elements()[i] == self.flat()[i],
            self.flat()[0] == self.id,
            self.flat()[1] == self.vehicle.id,
            self.flat()[2] == self.vehicle.capacity,
            forall|k: int|
                0 <= k < 8 ==> self.flat()[3 + 7 * k] == (#[trigger] self.actions@[k]).id && self.flat()[3 + 7 * k
                    + 1] == self.actions@[k].action_type && self.flat()[3 + 7 * k + 2]
                    == self.actions@[k].start_time && self.flat()[3 + 7 * k + 3]
                    == self.actions@[k].end_time && self.flat()[3 + 7 * k + 4]
                    == self.actions@[k].location.id && self.flat()[3 + 7 * k + 5]
                    == self.actions@[k].location.latitude && self.flat()[3 + 7 * k + 6]
                    == self.actions@[k].location.longitude,
            forall|k: int|
                0 <= k < 8 ==> self.flat()[59 + 3 * k] == (#[trigger] self.goods@[k]).id && self.flat()[59 + 3 * k
                    + 1] == self.goods@[k].quantity && self.flat()[59 + 3 * k + 2]
                    == self.goods@[k].weight,
    {
        self.lemma_flat();
        assert forall|k: int| 0 <= k < 8 implies self.flat()[3 + 7 * k] == (
        #[trigger] self.actions@[k]).id && self.flat()[3 + 7 * k + 1] == self.actions@[k].action_type
            && self.flat()[3 + 7 * k + 2] == self.actions@[k].start_time && self.flat()[3 + 7 * k
            + 3] == self.actions@[k].end_time && self.flat()[3 + 7 * k + 4]
            == self.actions@[k].location.id && self.flat()[3 + 7 * k + 5]
            == self.actions@[k].location.latitude && self.flat()[3 + 7 * k + 6]
            == self.actions@[k].location.longitude by {
            let a = self.actions@[k];
            assert(a.flat()[0] == a.id);
            assert(a.flat()[1] == a.action_type);
            assert(a.flat()[2] == a.start_time);
            assert(a.flat()[3] == a.end_time);
            assert(a.flat()[4] == a.location.id);
            assert(a.flat()[5] == a.location.latitude);
            assert(a.flat()[6] == a.location.longitude);
        }
        assert forall|k: int| 0 <= k < 8 implies self.flat()[59 + 3 * k] == (
        #[trigger] self.goods@[k]).id && self.flat()[59 + 3 * k + 1] == self.goods@[k].quantity
            && self.flat()[59 + 3 * k + 2] == self.goods@[k].weight by {
            let g = self.goods@[k];
            assert(g.flat()[0] == g.id);
            assert(g.flat()[1] == g.quantity);
            assert(g.flat()[2] == g.weight);
        }
    }

    /// The order in its flat form.
    pub fn flatten(&self) -> (v: Vec<u64>)
        ensures
            v@ == self.flat(),
            v@.len() == FIELDS_PER_ORDER,
            v@[0] == self.id,
            v@[1] == self.vehicle.id,
            v@[2] == self.vehicle.capacity,
            forall|k: int|
                0 <= k < 8 ==> v@[3 + 7 * k] == (#[trigger] self.actions@[k]).id && v@[3 + 7 * k
                    + 1] == self.actions@[k].action_type && v@[3 + 7 * k + 2]
                    == self.actions@[k].start_time && v@[3 + 7 * k + 3]
                    == self.actions@[k].end_time && v@[3 + 7 * k + 4]
                    == self.actions@[k].location.id && v@[3 + 7 * k + 5]
                    == self.actions@[k].location.latitude && v@[3 + 7 * k + 6]
                    == self.actions@[k].location.longitude,
            forall|k: int|
                0 <= k < 8 ==> v@[59 + 3 * k] == (#[trigger] self.goods@[k]).id && v@[59 + 3 * k
                    + 1] == self.goods@[k].quantity && v@[59 + 3 * k + 2]
                    == self.goods@[k].weight,
    {
        let mut v: Vec<u64> = Vec::with_capacity(FIELDS_PER_ORDER);
        v.push(self.id);
        v.push(self.vehicle.id);
        v.push(self.vehicle.capacity);
        let ghost head = v@;
        let mut i: usize = 0;
        while i < MAX_ACTIONS
            invariant
                i <= MAX_ACTIONS,
                v@ == head + flat_actions(self.actions@, i as nat),
            decreases MAX_ACTIONS - i,
        {
            let a = &self.actions[i];
            v.push(a.id);
            v.push(a.action_type);
            v.push(a.start_time);
            v.push(a.end_time);
            v.push(a.location.id);
            v.push(a.location.latitude);
            v.push(a.location.longitude);
            i = i + 1;
        }
        let ghost head = v@;
        let mut k: usize = 0;
        while k < MAX_GOODS
            invariant
                k <= MAX_GOODS,
                v@ == head + flat_goods(self.goods@, k as nat),
            decreases MAX_GOODS - k,
        {
            let g = &self.goods[k];
            v.push(g.id);
            v.push(g.quantity);
            v.push(g.weight);
            k = k + 1;
        }
        proof {
            self.lemma_flat();
            self.lemma_flat_by_name();
        }
        v
    }

    /// The order in its flat form, as field elements.
    pub fn flatten_field(&self) -> (v: Vec<Fr>)
        ensures
            v@.len() == FIELDS_PER_ORDER,
            field::all_wf(v@),
            field::integers(v@) == self.elements(),
            v@[0]@ == self.id,
            v@[1]@ == self.vehicle.id,
            v@[2]@ == self.vehicle.capacity,
            forall|k: int|
                0 <= k < 8 ==> v@[3 + 7 * k]@ == (#[trigger] self.actions@[k]).id && v@[3 + 7 * k
                    + 1]@ == self.actions@[k].action_type && v@[3 + 7 * k + 2]@
                    == self.actions@[k].start_time && v@[3 + 7 * k + 3]@
                    == self.actions@[k].end_time && v@[3 + 7 * k + 4]@
                    == self.actions@[k].location.id && v@[3 + 7 * k + 5]@
                    == self.actions@[k].location.latitude && v@[3 + 7 * k + 6]@
                    == self.actions@[k].location.longitude,
            forall|k: int|
                0 <= k < 8 ==> v@[59 + 3 * k]@ == (#[trigger] self.goods@[k]).id && v@[59 + 3 * k
                    + 1]@ == self.goods@[k].quantity && v@[59 + 3 * k + 2]@
                    == self.goods@[k].weight,
    {
        let flat = self.flatten();
        let mut v: Vec<Fr> = Vec::new();
        let mut i: usize = 0;
        while i < flat.len()
            invariant
                i <= flat.len(),
                v@.len() == i,
                forall|j: int| 0 <= j < i ==> (#[trigger] v@[j]).wf() && v@[j]@ == flat@[j],
            decreases flat.len() - i,
        {
            v.push(field::fr_from_u64(flat[i]));
            i = i + 1;
        }
        v
    }
}

} // verus!
