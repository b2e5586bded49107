//! What surrounds the steps of a fold: the state it starts from, the orders it consumes, and
//! the state that it ends in.
use vstd::prelude::*;
use ark_r1cs_std::alloc::AllocationMode;
use ark_relations::r1cs::SynthesisError;
use crate::circuit::{DataQualityStepCircuit, OrderInputs};
use crate::field;
use crate::field::Fr;
use crate::otm::{TransportOrder, FIELDS_PER_ORDER};
use crate::quality;
use crate::quality::STATE_LEN;
use crate::r1cs;
use crate::r1cs::ConstraintSystem;

verus! {

/// The state before the first step: nothing has failed, the fingerprint is empty and there is
/// no order before. The challenge and the time window are chosen here for the whole fold.
pub open spec fn initial(r: nat, t_min: nat, t_max: nat) -> Seq<nat> {
    seq![1, 0, 1, r, 0, 0, 0, t_min, t_max]
}

/// The state after the first `n` orders of `xs`, each in its flat form, from the state `z`.
pub open spec fn state_after(z: Seq<nat>, xs: Seq<Seq<nat>>, n: nat) -> Seq<nat>
    decreases n,
{
    if n == 0 {
        z
    } else {
        quality::next_state(state_after(z, xs, (n - 1) as nat), xs[n - 1])
    }
}

/// The state before the first step.
pub fn initial_state(r: u64, t_min: u64, t_max: u64) -> (z: Vec<Fr>)
    ensures
        field::all_wf(z@),
        field::integers(z@) == initial(r as nat, t_min as nat, t_max as nat),
        z@.len() == 9,
        z@[0]@ == 1,
        z@[1]@ == 0,
        z@[2]@ == 1,
        z@[3]@ == r,
        z@[4]@ == 0,
        z@[5]@ == 0,
        z@[6]@ == 0,
        z@[7]@ == t_min,
        z@[8]@ == t_max,
{
    let mut z: Vec<Fr> = Vec::new();
    z.push(Fr::one());
    z.push(Fr::zero());
    z.push(Fr::one());
    z.push(field::fr_from_u64(r));
    z.push(Fr::zero());
    z.push(Fr::zero());
    z.push(Fr::zero());
    z.push(field::fr_from_u64(t_min));
    z.push(field::fr_from_u64(t_max));
    z
}

/// Orders as the steps of a fold consume them, each in its flat form.
pub fn external_inputs(orders: &Vec<TransportOrder>) -> (inputs: Vec<OrderInputs<Fr>>)
    ensures
        inputs@.len() == orders@.len(),
        forall|i: int|
            0 <= i < orders@.len() ==> field::all_wf((#[trigger] inputs@[i]).0@) && field::integers(
                inputs@[i].0@,
            ) == orders@[i].elements(),
        forall|i: int|
            0 <= i < orders@.len() ==> (#[trigger] inputs@[i]).0@.len() == 83
                && inputs@[i].0@[0]@ == orders@[i].id && inputs@[i].0@[1]@ == orders@[i].vehicle.id
                && inputs@[i].0@[2]@ == orders@[i].vehicle.capacity,
{
    let mut inputs: Vec<OrderInputs<Fr>> = Vec::new();
    let mut i: usize = 0;
    while i < orders.len()
        invariant
            i <= orders.len(),
            inputs@.len() == i,
            forall|j: int|
                0 <= j < i ==> field::all_wf((#[trigger] inputs@[j]).0@) && field::integers(
                    inputs@[j].0@,
                ) == orders@[j].elements(),
            forall|j: int|
                0 <= j < i ==> (#[trigger] inputs@[j]).0@.len() == 83 && inputs@[j].0@[0]@
                    == orders@[j].id && inputs@[j].0@[1]@ == orders@[j].vehicle.id
                    && inputs@[j].0@[2]@ == orders@[j].vehicle.capacity,
        decreases orders.len() - i,
    {
        inputs.push(OrderInputs(orders[i].flatten_field()));
        i = i + 1;
    }
    inputs
}

/// Runs one step on a system of its own: gives the next state, and whether the constraints
/// are met.
pub fn run_step(z: &Vec<Fr>, ext: &Vec<Fr>) -> (r: Result<(Vec<Fr>, bool), SynthesisError>)
    requires
        z@.len() == STATE_LEN,
        ext@.len() == FIELDS_PER_ORDER,
        field::all_wf(z@),
        field::all_wf(ext@),
    ensures
        r is Ok,
        field::all_wf(r->Ok_0.0@),
        field::integers(r->Ok_0.0@) == quality::next_state(
            field::integers(z@),
            field::integers(ext@),
        ),
        r->Ok_0.1 == quality::order_fits(field::integers(z@), field::integers(ext@)),
        r->Ok_0.0@.len() == 9,
        r->Ok_0.0@[0]@ <= 1,
        r->Ok_0.0@[0]@ == 1 ==> z@[0]@ == 1,
        r->Ok_0.0@[3]@ == z@[3]@,
        r->Ok_0.0@[4]@ == ext@[1]@,
        r->Ok_0.0@[6]@ == 1,
        r->Ok_0.0@[7]@ == z@[7]@,
        r->Ok_0.0@[8]@ == z@[8]@,
{
    let mut cs = ConstraintSystem::new_ref();
    let z_in = r1cs::fp_new_variables(&mut cs, z, AllocationMode::Witness)?;
    let ext_in = r1cs::fp_new_variables(&mut cs, ext, AllocationMode::Witness)?;
    let circuit = DataQualityStepCircuit::<Fr>::new();
    let z_out = circuit.step(&mut cs, &z_in, &ext_in)?;
    let mut out: Vec<Fr> = Vec::new();
    let mut i: usize = 0;
    while i < z_out.len()
        invariant
            i <= z_out.len(),
            r1cs::live(cs, None),
            r1cs::owns_all(cs, z_out@),
            out@.len() == i,
            forall|j: int|
                0 <= j < i ==> (#[trigger] out@[j]).wf() && out@[j]@ == r1cs::fp_value(z_out@[j], None),
        decreases z_out.len() - i,
    {
        reveal(r1cs::fp_value);
        assert(r1cs::owns_fp(cs, z_out@[i as int]));
        out.push(r1cs::fp_read(&cs, &z_out[i])?);
        i = i + 1;
    }
    assert(field::integers(out@) =~= r1cs::values(z_out@, None));
    proof {
        let next = quality::next_state(field::integers(z@), field::integers(ext@));
        assert(field::integers(out@) == next);
        assert forall|i: int| 0 <= i < 9 implies #[trigger] out@[i]@ == next[i] by {
            assert(field::integers(out@)[i] == out@[i]@);
        }
    }
    let satisfied = r1cs::is_satisfied(&cs)?;
    Ok((out, satisfied))
}

} // verus!
