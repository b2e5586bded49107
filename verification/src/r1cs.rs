//! Rank-1 constraint systems and the variables in them, as `ark_relations` and
//! `ark_r1cs_std` build them over the scalar field of BN254.
//!
//! # What is said of a system
//!
//! A constraint system collects variables and the constraints that were enforced on
//! them. It is spoken of through its *runs*. A run gives every variable of the
//! system a field element; it is written as an `Option<Seq<nat>>`:
//!
//! - `None` is the assignment that the system itself holds, the one that was handed
//!   in when its variables were allocated. A system in setup mode holds none.
//! - `Some(w)` is an assignment `w` of anyone's choosing, listing a field element for
//!   each variable, in which every constraint enforced on the system holds. What it does
//!   not list is zero, and what is listed beyond the last variable is ignored.
//!
//! What a clause says of all runs of a system thus says two things at once: what value
//! the honest prover computes, and that no assignment which meets the constraints can
//! have another one.
//!
//! `extends` says the converse: that an assignment of the variables so far can be completed
//! to one that meets the constraints added since. What only derives a value shuts out no
//! assignment; what enforces something shuts out those that do not meet it, and no others.
//!
//! # What is trusted
//!
//! The three structs below hold values of outside types, and Verus is told nothing of
//! their inside: those types are generic over traits that it cannot name. What is
//! known of them is what the clauses of the functions in this module say, each of
//! which makes one call into `ark_relations` or `ark_r1cs_std`.
use vstd::prelude::*;
use ark_ff::{BigInt, PrimeField};
use ark_r1cs_std::alloc::{AllocVar, AllocationMode};
use ark_r1cs_std::eq::EqGadget;
use ark_r1cs_std::fields::FieldVar;
use ark_r1cs_std::select::CondSelectGadget;
use ark_r1cs_std::R1CSVar;
use ark_relations::r1cs::SynthesisError;
use crate::field;
use crate::field::Fr;

verus! {

/// The errors of `ark_relations`.
#[verifier::external_type_specification]
pub struct ExSynthesisError(SynthesisError);

/// The ways in which `ark_r1cs_std` allocates a variable: as a constant, as a public
/// input or as a private witness.
#[verifier::external_type_specification]
pub struct ExAllocationMode(AllocationMode);

/// A shared handle of a constraint system, or of none.
#[verifier::external_body]
pub struct ConstraintSystem {
    pub inner: ark_relations::r1cs::ConstraintSystemRef<ark_bn254::Fr>,
}

/// A field element in a circuit: a constant, or a variable of a constraint system.
#[derive(Debug)]
#[verifier::external_body]
pub struct FpVar {
    pub inner: ark_r1cs_std::fields::fp::FpVar<ark_bn254::Fr>,
}

/// A truth value in a circuit: a constant, or a variable of a constraint system whose
/// constraints make it zero or one.
#[verifier::external_body]
pub struct Boolean {
    pub inner: ark_r1cs_std::boolean::Boolean<ark_bn254::Fr>,
}

impl Clone for FpVar {
    fn clone(&self) -> (r: Self)
        ensures
            r == *self,
    {
        fp_clone(self)
    }
}

/// There is a system behind the handle.
pub uninterp spec fn present(cs: ConstraintSystem) -> bool;

/// No allocation in the system has failed, so that each of its variables has a value in the
/// assignment that it holds, if it holds one.
pub uninterp spec fn intact(cs: ConstraintSystem) -> bool;

/// The runs of the system; see the head of this module.
pub uninterp spec fn live(cs: ConstraintSystem, run: Option<Seq<nat>>) -> bool;

/// Whether the assignment that the system holds meets every constraint enforced on it.
/// Nothing where it holds none, or does not record its constraints.
pub uninterp spec fn satisfied(cs: ConstraintSystem) -> Option<bool>;

/// An integer that stands for the value of `v` in a run.
pub uninterp spec fn fp_integer(v: FpVar, run: Option<Seq<nat>>) -> nat;

/// The truth value of `b` in a run.
pub uninterp spec fn bit_value(b: Boolean, run: Option<Seq<nat>>) -> bool;

/// `v` can be used with `cs`: it is a constant, or a variable of `cs`, an intact system, which
/// has its value in the assignment that `cs` holds, if it holds one.
pub uninterp spec fn owns_fp(cs: ConstraintSystem, v: FpVar) -> bool;

/// `b` can be used with `cs`: it is a constant, or a variable of `cs`, an intact system, which
/// has its value in the assignment that `cs` holds, if it holds one, and is zero or one in
/// every run of `cs`.
pub uninterp spec fn owns_bit(cs: ConstraintSystem, b: Boolean) -> bool;

/// `v` is a constant, or a variable of `cs`.
pub uninterp spec fn belongs_fp(cs: ConstraintSystem, v: FpVar) -> bool;

/// The value of `v` can be read: it is a constant, or `cs` holds an assignment that has a value
/// for it.
pub uninterp spec fn assigned(cs: ConstraintSystem, v: FpVar) -> bool;

/// `v` carries its value with it: it is a constant, or a variable that was made with a value.
pub uninterp spec fn carried(v: FpVar) -> bool;

/// How a variable that was allocated by itself came about: as a constant, as a public input or
/// as a private witness.
pub uninterp spec fn allocated_as(v: FpVar) -> AllocationMode;

/// The number of public variables of a system, the one that is always one among them.
pub uninterp spec fn inputs(cs: ConstraintSystem) -> nat;

/// The number of private variables of a system.
pub uninterp spec fn witnesses(cs: ConstraintSystem) -> nat;

/// The number of constraints enforced on a system.
pub uninterp spec fn constraints(cs: ConstraintSystem) -> nat;

/// The value of `v` in a run: the canonical integer of a field element.
#[verifier::opaque]
pub open spec fn fp_value(v: FpVar, run: Option<Seq<nat>>) -> nat {
    fp_integer(v, run) % field::modulus()
}

/// `v` is a constant: it can be used with every system.
pub open spec fn fp_is_constant(v: FpVar) -> bool {
    forall|cs: ConstraintSystem| #[trigger] owns_fp(cs, v)
}

/// `b` is a constant: it can be used with every system.
pub open spec fn bit_is_constant(b: Boolean) -> bool {
    forall|cs: ConstraintSystem| #[trigger] owns_bit(cs, b)
}

/// `after` is `before` with variables and constraints added: its runs are among those of
/// `before`, and what could be used with `before` can be used with `after`.
pub open spec fn grows(before: ConstraintSystem, after: ConstraintSystem) -> bool {
    &&& present(after) == present(before)
    &&& intact(before) ==> intact(after)
    &&& live(after, None) == live(before, None)
    &&& forall|run: Option<Seq<nat>>| #[trigger] live(after, run) ==> live(before, run)
    &&& forall|v: FpVar| owns_fp(before, v) ==> #[trigger] owns_fp(after, v)
    &&& forall|b: Boolean| owns_bit(before, b) ==> #[trigger] owns_bit(after, b)
}

/// What can be used with `cs` has the same value in the assignments `w` and `v`.
#[verifier::opaque]
pub open spec fn same_values(cs: ConstraintSystem, w: Seq<nat>, v: Seq<nat>) -> bool {
    &&& forall|x: FpVar| #[trigger]
        owns_fp(cs, x) ==> fp_value(x, Some(w)) == fp_value(x, Some(v))
    &&& forall|b: Boolean| #[trigger]
        owns_bit(cs, b) ==> bit_value(b, Some(w)) == bit_value(b, Some(v))
}

/// The assignment `w` of `before` can be completed to one of `after`: some assignment meets
/// the constraints of `after` and leaves all values of `before` as they are in `w`.
#[verifier::opaque]
pub open spec fn extends(before: ConstraintSystem, after: ConstraintSystem, w: Seq<nat>) -> bool {
    exists|v: Seq<nat>| #[trigger] live(after, Some(v)) && same_values(before, w, v)
}

/// The assignment `w` of `before` can be completed to one of `after` in which `b` is `x`.
#[verifier::opaque]
pub open spec fn extends_with_bit(
    before: ConstraintSystem,
    after: ConstraintSystem,
    w: Seq<nat>,
    b: Boolean,
    x: bool,
) -> bool {
    exists|v: Seq<nat>| #[trigger]
        live(after, Some(v)) && same_values(before, w, v) && bit_value(b, Some(v)) == x
}

/// The assignment `w` of `before` can be completed to one of `after` in which `vars` have the
/// values `xs`.
#[verifier::opaque]
pub open spec fn extends_with_values(
    before: ConstraintSystem,
    after: ConstraintSystem,
    w: Seq<nat>,
    vars: Seq<FpVar>,
    xs: Seq<nat>,
) -> bool {
    exists|v: Seq<nat>| #[trigger]
        live(after, Some(v)) && same_values(before, w, v) && values(vars, Some(v)) == xs
}

/// `after` is `before` with variables and constraints added that only derive: the constraints
/// are met by the assignment that the system holds, and every assignment of `before` can be
/// completed to one of `after`.
pub open spec fn derives(before: ConstraintSystem, after: ConstraintSystem) -> bool {
    &&& grows(before, after)
    &&& satisfied(after) == satisfied(before)
    &&& forall|w: Seq<nat>| live(before, Some(w)) ==> #[trigger] extends(before, after, w)
}

/// `after` has `w` private variables and `c` constraints more than `before`, and the same
/// public variables.
pub open spec fn adds(before: ConstraintSystem, after: ConstraintSystem, w: nat, c: nat) -> bool {
    &&& inputs(after) == inputs(before)
    &&& witnesses(after) == witnesses(before) + w
    &&& constraints(after) == constraints(before) + c
}

/// `v` is a variable of `cs`, which holds an assignment, but none that has a value for `v`.
pub open spec fn lacks(cs: ConstraintSystem, v: FpVar) -> bool {
    present(cs) && live(cs, None) && belongs_fp(cs, v) && !assigned(cs, v)
}

/// `v` is a variable of `cs`, which holds an assignment, but was made without a value.
pub open spec fn valueless(cs: ConstraintSystem, v: FpVar) -> bool {
    present(cs) && live(cs, None) && belongs_fp(cs, v) && !carried(v)
}

/// `after` is `before` with a private variable that was counted but got no value: its runs and
/// its constraints are those of `before`, and it is no longer intact.
pub open spec fn stalls(before: ConstraintSystem, after: ConstraintSystem) -> bool {
    &&& present(after) == present(before)
    &&& !intact(after)
    &&& satisfied(after) == satisfied(before)
    &&& forall|run: Option<Seq<nat>>| #[trigger] live(after, run) == live(before, run)
    &&& adds(before, after, 1, 0)
}

/// Of `a` and `b`, which are constants or variables of `cs`, one lacks its value.
pub open spec fn one_lacks(cs: ConstraintSystem, a: FpVar, b: FpVar) -> bool {
    &&& belongs_fp(cs, a)
    &&& belongs_fp(cs, b)
    &&& lacks(cs, a) || lacks(cs, b)
}

/// Whether a system is satisfied once a further constraint is enforced that its
/// assignment meets if and only if `met`.
pub open spec fn narrowed(before: Option<bool>, met: bool) -> Option<bool> {
    match before {
        Some(b) => Some(b && met),
        None => None,
    }
}

/// What is used with `cs` has the same value in both assignments.
pub proof fn lemma_same_fp(cs: ConstraintSystem, w: Seq<nat>, v: Seq<nat>, x: FpVar)
    requires
        same_values(cs, w, v),
        owns_fp(cs, x),
    ensures
        fp_value(x, Some(w)) == fp_value(x, Some(v)),
{
    reveal(same_values);
}

/// What is used with `cs` has the same values in both assignments.
pub proof fn lemma_same_all(cs: ConstraintSystem, w: Seq<nat>, v: Seq<nat>, vars: Seq<FpVar>)
    requires
        same_values(cs, w, v),
        owns_all(cs, vars),
    ensures
        values(vars, Some(w)) == values(vars, Some(v)),
{
    reveal(same_values);
    assert(values(vars, Some(w)) =~= values(vars, Some(v)));
}

/// An assignment that can be completed to one of `b` can be completed to one of `c`, if all
/// that it can be completed to can.
pub proof fn lemma_extends(
    a: ConstraintSystem,
    b: ConstraintSystem,
    c: ConstraintSystem,
    w: Seq<nat>,
)
    requires
        grows(a, b),
        extends(a, b, w),
        forall|v: Seq<nat>|
            live(b, Some(v)) && #[trigger] same_values(a, w, v) ==> extends(b, c, v),
    ensures
        extends(a, c, w),
{
    reveal(extends);
    reveal(same_values);
    let v = choose|v: Seq<nat>| #[trigger] live(b, Some(v)) && same_values(a, w, v);
    assert(extends(b, c, v));
    let u = choose|u: Seq<nat>| #[trigger] live(c, Some(u)) && same_values(b, v, u);
    assert forall|x: FpVar| #[trigger] owns_fp(a, x) implies fp_value(x, Some(w)) == fp_value(
        x,
        Some(u),
    ) by {
        assert(owns_fp(b, x));
    }
    assert forall|x: Boolean| #[trigger] owns_bit(a, x) implies bit_value(x, Some(w)) == bit_value(
        x,
        Some(u),
    ) by {
        assert(owns_bit(b, x));
    }
    assert(same_values(a, w, u));
}

/// An assignment that can be completed to one of `b` can be completed to one of what derives
/// from `b`.
pub proof fn lemma_extends_derives(
    a: ConstraintSystem,
    b: ConstraintSystem,
    c: ConstraintSystem,
    w: Seq<nat>,
)
    requires
        grows(a, b),
        extends(a, b, w),
        derives(b, c),
    ensures
        extends(a, c, w),
{
    lemma_extends(a, b, c, w);
}

/// What derives from what derives from a system derives from it.
pub proof fn lemma_derives(a: ConstraintSystem, b: ConstraintSystem, c: ConstraintSystem)
    requires
        derives(a, b),
        derives(b, c),
    ensures
        derives(a, c),
{
    assert forall|w: Seq<nat>| live(a, Some(w)) implies #[trigger] extends(a, c, w) by {
        assert(extends(a, b, w));
        lemma_extends(a, b, c, w);
    }
}

/// A system derives from itself.
pub proof fn lemma_derives_same(a: ConstraintSystem)
    ensures
        derives(a, a),
{
    reveal(extends);
    reveal(same_values);
    assert forall|w: Seq<nat>| live(a, Some(w)) implies #[trigger] extends(a, a, w) by {
        assert(same_values(a, w, w));
    }
}

impl ConstraintSystem {
    /// A system without constraints, which holds the assignment of its variables and records
    /// its constraints.
    pub fn new_ref() -> (r: ConstraintSystem)
        ensures
            present(r),
            intact(r),
            live(r, None),
            satisfied(r) == Some(true),
            inputs(r) == 1,
            witnesses(r) == 0,
            constraints(r) == 0,
            forall|w: Seq<nat>| #[trigger] live(r, Some(w)),
    {
        new_system()
    }
}

/// `ConstraintSystem::new_ref` of `ark_relations`: a system without constraints, which holds
/// the assignment of its variables and records its constraints. Its only variable is the public
/// one that is always one. As there are no constraints, every assignment meets them.
#[verifier::external_body]
fn new_system() -> (r: ConstraintSystem)
    ensures
        present(r),
        intact(r),
        live(r, None),
        satisfied(r) == Some(true),
        inputs(r) == 1,
        witnesses(r) == 0,
        constraints(r) == 0,
        forall|w: Seq<nat>| #[trigger] live(r, Some(w)),
{
    ConstraintSystem { inner: ark_relations::r1cs::ConstraintSystem::new_ref() }
}

/// `ConstraintSystemRef::is_satisfied` of `ark_relations`.
#[verifier::external_body]
pub(crate) fn is_satisfied(cs: &ConstraintSystem) -> (r: Result<bool, SynthesisError>)
    requires
        satisfied(*cs) is Some,
    ensures
        r is Ok,
        r->Ok_0 == satisfied(*cs).unwrap(),
{
    cs.inner.is_satisfied()
}

/// `vars` can all be used with `cs`.
pub open spec fn owns_all(cs: ConstraintSystem, vars: Seq<FpVar>) -> bool {
    forall|i: int| 0 <= i < vars.len() ==> owns_fp(cs, #[trigger] vars[i])
}

/// None of `vars` is a constant.
pub open spec fn no_constants(vars: Seq<FpVar>) -> bool {
    forall|i: int| 0 <= i < vars.len() ==> !fp_is_constant(#[trigger] vars[i])
}

/// The values of `vars` in a run.
pub open spec fn values(vars: Seq<FpVar>, run: Option<Seq<nat>>) -> Seq<nat> {
    Seq::new(vars.len(), |i: int| fp_value(vars[i], run))
}

/// `AllocVar::new_variable` of `ark_r1cs_std` for a vector of `FpVar`: for each of the given
/// values a constant, a new public variable or a new private variable of the system, as the
/// mode has it. The assignment of the system, if it holds one, gives a new variable that
/// value; any other assignment may give it any value. Without a system there are no variables.
#[verifier::external_body]
pub(crate) fn fp_new_variables(
    cs: &mut ConstraintSystem,
    xs: &Vec<Fr>,
    mode: AllocationMode,
) -> (r: Result<Vec<FpVar>, SynthesisError>)
    requires
        intact(*old(cs)),
        field::all_wf(xs@),
    ensures
        derives(*old(cs), *final(cs)),
        r is Ok <==> present(*old(cs)) || mode is Constant || xs@.len() == 0,
        r matches Err(e) ==> e == SynthesisError::MissingCS && *final(cs) == *old(cs),
        r matches Ok(vars) ==> vars@.len() == xs@.len() && owns_all(*final(cs), vars@),
        r matches Ok(vars) ==> live(*final(cs), None) ==> values(vars@, None) == field::integers(
            xs@,
        ),
        r matches Ok(vars) ==> forall|i: int|
            0 <= i < xs@.len() ==> allocated_as(#[trigger] vars@[i]) == mode,
        r matches Ok(vars) ==> forall|i: int|
            0 <= i < xs@.len() ==> fp_is_constant(#[trigger] vars@[i]) == (mode is Constant),
        r matches Ok(vars) ==> mode is Constant ==> forall|run| #[trigger]
            values(vars@, run) == field::integers(xs@),
        r matches Ok(vars) ==> !(mode is Constant) ==> forall|w: Seq<nat>, ys: Seq<nat>|
            live(*old(cs), Some(w)) && ys.len() == xs@.len() && field::all_elements(ys)
                ==> #[trigger] extends_with_values(*old(cs), *final(cs), w, vars@, ys),
        r is Ok ==> inputs(*final(cs)) == inputs(*old(cs)) + (if mode is Input {
            xs@.len()
        } else {
            0
        }),
        r is Ok ==> witnesses(*final(cs)) == witnesses(*old(cs)) + (if mode is Witness {
            xs@.len()
        } else {
            0
        }),
        constraints(*final(cs)) == constraints(*old(cs)),
{
    let f = |x: &Fr| ark_bn254::Fr::from_bigint(BigInt(x.limbs)).unwrap();
    let values: Vec<ark_bn254::Fr> = xs.iter().map(f).collect();
    let vars = Vec::<ark_r1cs_std::fields::fp::FpVar<_>>::new_variable(
        cs.inner.clone(),
        || Ok(values),
        mode,
    );
    vars.map(|vars| vars.into_iter().map(|inner| FpVar { inner }).collect())
}

/// `AllocVar::new_witness` of `ark_r1cs_std`'s `Boolean`: a new variable of the system, with
/// the constraint that it is zero or one, to which the assignment of the system, if it
/// holds one, gives the value handed in; any other assignment may give it either value. An error
/// handed in is passed on where the value is asked for; the variable is then counted, but has no
/// value and no constraint. Without a system there is no variable.
#[verifier::external_body]
pub(crate) fn bit_new_witness(
    cs: &mut ConstraintSystem,
    value: Result<bool, SynthesisError>,
) -> (r: Result<Boolean, SynthesisError>)
    requires
        intact(*old(cs)) || (value is Err && present(*old(cs)) && live(*old(cs), None)),
    ensures
        !present(*old(cs)) ==> r is Err && r->Err_0 == SynthesisError::MissingCS,
        present(*old(cs)) ==> (r is Ok <==> value is Ok || !live(*old(cs), None)),
        present(*old(cs)) && r is Err ==> r->Err_0 == value->Err_0,
        !present(*old(cs)) ==> *final(cs) == *old(cs),
        present(*old(cs)) && r is Err ==> stalls(*old(cs), *final(cs)),
        r matches Ok(b) ==> derives(*old(cs), *final(cs)),
        r matches Ok(b) ==> owns_bit(*final(cs), b) && !bit_is_constant(b),
        r matches Ok(b) ==> live(*final(cs), None) ==> bit_value(b, None) == value->Ok_0,
        r matches Ok(b) ==> forall|w: Seq<nat>, x: bool|
            live(*old(cs), Some(w)) ==> #[trigger] extends_with_bit(
                *old(cs),
                *final(cs),
                w,
                b,
                x,
            ),
        r is Ok ==> adds(*old(cs), *final(cs), 1, 1),
{
    let bit = AllocVar::new_witness(cs.inner.clone(), || value);
    bit.map(|inner| Boolean { inner })
}

/// `FieldVar::constant` of `ark_r1cs_std`'s `FpVar`: a constant of the given value.
#[verifier::external_body]
pub(crate) fn fp_constant(x: &Fr) -> (r: FpVar)
    requires
        x.wf(),
    ensures
        fp_is_constant(r),
        allocated_as(r) is Constant,
        carried(r),
        forall|run| #[trigger] fp_value(r, run) == x@,
{
    let value = ark_bn254::Fr::from_bigint(BigInt(x.limbs)).unwrap();
    FpVar { inner: FieldVar::constant(value) }
}

/// `Clone` of `ark_r1cs_std`'s `FpVar`: another handle of the same constant or variable.
#[verifier::external_body]
pub(crate) fn fp_clone(v: &FpVar) -> (r: FpVar)
    ensures
        r == *v,
{
    FpVar { inner: v.inner.clone() }
}

/// `R1CSVar::value` of `ark_r1cs_std`'s `FpVar`: the value of a constant, or that in the
/// assignment that the system holds; an error where it holds none, or none for this variable.
#[verifier::external_body]
pub(crate) fn fp_read(cs: &ConstraintSystem, v: &FpVar) -> (r: Result<Fr, SynthesisError>)
    requires
        owns_fp(*cs, *v) || belongs_fp(*cs, *v),
    ensures
        r is Ok <==> assigned(*cs, *v),
        r matches Ok(x) ==> x.wf(),
        r matches Ok(x) ==> owns_fp(*cs, *v) ==> x@ == fp_integer(*v, None) % field::modulus(),
        r matches Err(e) ==> e == SynthesisError::AssignmentMissing,
        r matches Err(e) ==> owns_fp(*cs, *v) ==> !live(*cs, None),
{
    v.inner.value().map(|x| Fr { limbs: x.into_bigint().0 })
}

/// `Add` and `AddAssign` of `ark_r1cs_std`'s `FpVar`: the sum, as a linear combination. It
/// enforces nothing. Its value can be read where those of both operands can.
#[verifier::external_body]
pub(crate) fn fp_add(cs: &ConstraintSystem, a: &FpVar, b: &FpVar) -> (r: FpVar)
    requires
        owns_fp(*cs, *a) || belongs_fp(*cs, *a),
        owns_fp(*cs, *b) || belongs_fp(*cs, *b),
    ensures
        belongs_fp(*cs, r),
        assigned(*cs, r) == (assigned(*cs, *a) && assigned(*cs, *b)),
        fp_is_constant(r) == (fp_is_constant(*a) && fp_is_constant(*b)),
        owns_fp(*cs, *a) && owns_fp(*cs, *b) ==> owns_fp(*cs, r),
        owns_fp(*cs, *a) && owns_fp(*cs, *b) ==> forall|run| #[trigger]
            live(*cs, run) ==> fp_value(r, run) == (fp_value(*a, run) + fp_value(*b, run))
                % field::modulus(),
{
    FpVar { inner: &a.inner + &b.inner }
}

/// `Sub` of `ark_r1cs_std`'s `FpVar`: the difference, as a linear combination. It enforces
/// nothing. Its value can be read where those of both operands can.
#[verifier::external_body]
pub(crate) fn fp_sub(cs: &ConstraintSystem, a: &FpVar, b: &FpVar) -> (r: FpVar)
    requires
        owns_fp(*cs, *a) || belongs_fp(*cs, *a),
        owns_fp(*cs, *b) || belongs_fp(*cs, *b),
    ensures
        belongs_fp(*cs, r),
        assigned(*cs, r) == (assigned(*cs, *a) && assigned(*cs, *b)),
        fp_is_constant(r) == (fp_is_constant(*a) && fp_is_constant(*b)),
        owns_fp(*cs, *a) && owns_fp(*cs, *b) ==> owns_fp(*cs, r),
        owns_fp(*cs, *a) && owns_fp(*cs, *b) ==> forall|run| #[trigger]
            live(*cs, run) ==> fp_value(r, run) == (fp_value(*a, run) - fp_value(*b, run))
                % (field::modulus() as int),
{
    FpVar { inner: &a.inner - &b.inner }
}

/// `Mul` and `MulAssign` of `ark_r1cs_std`'s `FpVar`: the product. Of two variables it is a
/// new variable, which a constraint ties to them.
#[verifier::external_body]
pub(crate) fn fp_mul(cs: &mut ConstraintSystem, a: &FpVar, b: &FpVar) -> (r: FpVar)
    requires
        owns_fp(*old(cs), *a),
        owns_fp(*old(cs), *b),
    ensures
        derives(*old(cs), *final(cs)),
        owns_fp(*final(cs), r),
        fp_is_constant(r) == (fp_is_constant(*a) && fp_is_constant(*b)),
        forall|run| #[trigger]
            live(*final(cs), run) ==> fp_value(r, run) == (fp_value(*a, run) * fp_value(*b, run))
                % field::modulus(),
        fp_is_constant(*a) || fp_is_constant(*b) ==> adds(*old(cs), *final(cs), 0, 0),
        !fp_is_constant(*a) && !fp_is_constant(*b) ==> adds(*old(cs), *final(cs), 1, 1),
{
    FpVar { inner: &a.inner * &b.inner }
}

/// `EqGadget::is_eq` of `ark_r1cs_std`'s `FpVar`: whether the two are equal, tied to them by
/// constraints unless both are constants. A variable that was made without a value is an error
/// in a system that holds an assignment; the first of the two new variables is then counted, but
/// has no value and no constraint. Without a system there are only constants.
#[verifier::external_body]
pub(crate) fn fp_is_eq(cs: &mut ConstraintSystem, a: &FpVar, b: &FpVar) -> (r: Result<
    Boolean,
    SynthesisError,
>)
    requires
        owns_fp(*old(cs), *a) || belongs_fp(*old(cs), *a),
        owns_fp(*old(cs), *b) || belongs_fp(*old(cs), *b),
        (owns_fp(*old(cs), *a) && owns_fp(*old(cs), *b)) || valueless(*old(cs), *a) || valueless(
            *old(cs),
            *b,
        ),
    ensures
        owns_fp(*old(cs), *a) && owns_fp(*old(cs), *b) ==> r is Ok,
        valueless(*old(cs), *a) || valueless(*old(cs), *b) ==> r is Err && r->Err_0
            == SynthesisError::AssignmentMissing,
        r is Err ==> stalls(*old(cs), *final(cs)),
        !present(*old(cs)) ==> *final(cs) == *old(cs),
        r is Ok ==> derives(*old(cs), *final(cs)),
        r is Ok ==> owns_bit(*final(cs), r->Ok_0),
        r is Ok ==> bit_is_constant(r->Ok_0) == (fp_is_constant(*a) && fp_is_constant(*b)),
        r is Ok && bit_is_constant(r->Ok_0) ==> adds(*old(cs), *final(cs), 0, 0),
        r is Ok && !bit_is_constant(r->Ok_0) ==> adds(*old(cs), *final(cs), 2, 2),
        r is Ok ==> forall|run| #[trigger]
            live(*final(cs), run) ==> bit_value(r->Ok_0, run) == (fp_value(*a, run) == fp_value(
                *b,
                run,
            )),
{
    a.inner.is_eq(&b.inner).map(|inner| Boolean { inner })
}

/// `EqGadget::enforce_equal` of `ark_r1cs_std`'s `FpVar`: the constraint that the two are
/// equal. Two constants are left out: between them it enforces nothing, whatever their
/// values.
#[verifier::external_body]
pub(crate) fn fp_enforce_equal(cs: &mut ConstraintSystem, a: &FpVar, b: &FpVar) -> (r: Result<
    (),
    SynthesisError,
>)
    requires
        owns_fp(*old(cs), *a),
        owns_fp(*old(cs), *b),
        !(fp_is_constant(*a) && fp_is_constant(*b)),
    ensures
        r is Ok,
        grows(*old(cs), *final(cs)),
        satisfied(*final(cs)) == narrowed(
            satisfied(*old(cs)),
            fp_value(*a, None) == fp_value(*b, None),
        ),
        satisfied(*final(cs)) is Some ==> live(*final(cs), None),
        forall|w: Seq<nat>| #[trigger]
            live(*final(cs), Some(w)) ==> fp_value(*a, Some(w)) == fp_value(*b, Some(w)),
        forall|w: Seq<nat>|
            live(*old(cs), Some(w)) && fp_value(*a, Some(w)) == fp_value(*b, Some(w))
                ==> #[trigger] extends(*old(cs), *final(cs), w),
        adds(*old(cs), *final(cs), 0, 1),
{
    a.inner.enforce_equal(&b.inner)
}

/// `CondSelectGadget::conditionally_select` of `ark_r1cs_std`'s `FpVar`: `a` where `cond`
/// is true, else `b`, tied to them by a constraint unless `cond` is a constant, or both `a` and
/// `b` are.
#[verifier::external_body]
pub(crate) fn fp_select(cs: &mut ConstraintSystem, cond: &Boolean, a: &FpVar, b: &FpVar) -> (r:
    Result<FpVar, SynthesisError>)
    requires
        owns_bit(*old(cs), *cond),
        owns_fp(*old(cs), *a),
        owns_fp(*old(cs), *b),
    ensures
        r is Ok,
        derives(*old(cs), *final(cs)),
        owns_fp(*final(cs), r->Ok_0),
        forall|run| #[trigger]
            live(*final(cs), run) ==> fp_value(r->Ok_0, run) == (if bit_value(*cond, run) {
                fp_value(*a, run)
            } else {
                fp_value(*b, run)
            }),
        !bit_is_constant(*cond) ==> !fp_is_constant(r->Ok_0),
        bit_is_constant(*cond) || (fp_is_constant(*a) && fp_is_constant(*b)) ==> adds(
            *old(cs),
            *final(cs),
            0,
            0,
        ),
        !bit_is_constant(*cond) && !(fp_is_constant(*a) && fp_is_constant(*b)) ==> adds(
            *old(cs),
            *final(cs),
            1,
            1,
        ),
{
    let var = CondSelectGadget::conditionally_select(&cond.inner, &a.inner, &b.inner);
    var.map(|inner| FpVar { inner })
}

/// `From<Boolean>` of `ark_r1cs_std`'s `FpVar`: one where `b` is true, else zero, as a linear
/// combination. It enforces nothing.
#[verifier::external_body]
pub(crate) fn fp_from_bit(cs: &ConstraintSystem, b: &Boolean) -> (r: FpVar)
    requires
        owns_bit(*cs, *b),
    ensures
        owns_fp(*cs, r),
        fp_is_constant(r) == bit_is_constant(*b),
        forall|run| #[trigger]
            live(*cs, run) ==> fp_value(r, run) == (if bit_value(*b, run) {
                1nat
            } else {
                0nat
            }),
{
    FpVar { inner: b.inner.clone().into() }
}

/// `Not` of `ark_r1cs_std`'s `Boolean`, as a linear combination. It enforces nothing.
#[verifier::external_body]
pub(crate) fn bit_not(cs: &ConstraintSystem, b: &Boolean) -> (r: Boolean)
    requires
        owns_bit(*cs, *b),
    ensures
        owns_bit(*cs, r),
        bit_is_constant(r) == bit_is_constant(*b),
        forall|run| #[trigger] live(*cs, run) ==> bit_value(r, run) == !bit_value(*b, run),
{
    Boolean { inner: !&b.inner }
}

/// `BitAnd` of `ark_r1cs_std`'s `Boolean`, tied to its operands by a constraint where both are
/// variables.
#[verifier::external_body]
pub(crate) fn bit_and(cs: &mut ConstraintSystem, a: &Boolean, b: &Boolean) -> (r: Boolean)
    requires
        owns_bit(*old(cs), *a),
        owns_bit(*old(cs), *b),
    ensures
        derives(*old(cs), *final(cs)),
        owns_bit(*final(cs), r),
        forall|run| #[trigger]
            live(*final(cs), run) ==> bit_value(r, run) == (bit_value(*a, run) && bit_value(
                *b,
                run,
            )),
        bit_is_constant(*a) || bit_is_constant(*b) ==> adds(*old(cs), *final(cs), 0, 0),
        !bit_is_constant(*a) && !bit_is_constant(*b) ==> adds(*old(cs), *final(cs), 1, 1),
        !bit_is_constant(*a) && !bit_is_constant(*b) ==> !bit_is_constant(r),
{
    Boolean { inner: &a.inner & &b.inner }
}

/// `BitOr` of `ark_r1cs_std`'s `Boolean`, tied to its operands by a constraint where both are
/// variables.
#[verifier::external_body]
pub(crate) fn bit_or(cs: &mut ConstraintSystem, a: &Boolean, b: &Boolean) -> (r: Boolean)
    requires
        owns_bit(*old(cs), *a),
        owns_bit(*old(cs), *b),
    ensures
        derives(*old(cs), *final(cs)),
        owns_bit(*final(cs), r),
        forall|run| #[trigger]
            live(*final(cs), run) ==> bit_value(r, run) == (bit_value(*a, run) || bit_value(
                *b,
                run,
            )),
        bit_is_constant(*a) || bit_is_constant(*b) ==> adds(*old(cs), *final(cs), 0, 0),
        !bit_is_constant(*a) && !bit_is_constant(*b) ==> adds(*old(cs), *final(cs), 1, 1),
        !bit_is_constant(*a) && !bit_is_constant(*b) ==> !bit_is_constant(r),
{
    Boolean { inner: &a.inner | &b.inner }
}

/// `bits` can all be used with `cs`.
pub open spec fn owns_bits(cs: ConstraintSystem, bits: Seq<Boolean>) -> bool {
    forall|i: int| 0 <= i < bits.len() ==> owns_bit(cs, #[trigger] bits[i])
}

/// Every one of `bits` is true in a run.
pub open spec fn all_true(bits: Seq<Boolean>, run: Option<Seq<nat>>) -> bool {
    forall|i: int| 0 <= i < bits.len() ==> bit_value(#[trigger] bits[i], run)
}

/// Some one of `bits` is true in a run.
pub open spec fn some_true(bits: Seq<Boolean>, run: Option<Seq<nat>>) -> bool {
    exists|i: int| 0 <= i < bits.len() && bit_value(#[trigger] bits[i], run)
}

/// Some one of `bits` is not a constant.
pub open spec fn has_variable(bits: Seq<Boolean>) -> bool {
    exists|i: int| 0 <= i < bits.len() && !bit_is_constant(#[trigger] bits[i])
}

/// None of `bits` is a constant.
pub open spec fn all_variables(bits: Seq<Boolean>) -> bool {
    forall|i: int| 0 <= i < bits.len() ==> !bit_is_constant(#[trigger] bits[i])
}

/// `Boolean::kary_and` of `ark_r1cs_std`: whether all of the bits are true, tied to them by
/// constraints. It panics on no bits, and on more than three of which none is a variable.
#[verifier::external_body]
pub(crate) fn bit_kary_and(cs: &mut ConstraintSystem, bits: &Vec<Boolean>) -> (r: Result<
    Boolean,
    SynthesisError,
>)
    requires
        bits@.len() > 0,
        bits@.len() <= 3 || has_variable(bits@),
        owns_bits(*old(cs), bits@),
    ensures
        r is Ok,
        derives(*old(cs), *final(cs)),
        owns_bit(*final(cs), r->Ok_0),
        forall|run| #[trigger]
            live(*final(cs), run) ==> bit_value(r->Ok_0, run) == all_true(bits@, run),
        bits@.len() > 3 || all_variables(bits@) ==> !bit_is_constant(r->Ok_0),
        bits@.len() > 3 ==> adds(*old(cs), *final(cs), 2, 2),
        bits@.len() <= 3 && all_variables(bits@) ==> adds(
            *old(cs),
            *final(cs),
            (bits@.len() - 1) as nat,
            (bits@.len() - 1) as nat,
        ),
{
    let inner: Vec<_> = bits.iter().map(|b| b.inner.clone()).collect();
    ark_r1cs_std::boolean::Boolean::kary_and(&inner).map(|inner| Boolean { inner })
}

/// `Boolean::kary_or` of `ark_r1cs_std`: whether one of the bits is true, tied to them by
/// constraints. It panics on no bits, and on more than three of which none is a variable. Without
/// a system there are only constants.
#[verifier::external_body]
pub(crate) fn bit_kary_or(cs: &mut ConstraintSystem, bits: &Vec<Boolean>) -> (r: Result<
    Boolean,
    SynthesisError,
>)
    requires
        bits@.len() > 0,
        bits@.len() <= 3 || has_variable(bits@),
        owns_bits(*old(cs), bits@),
    ensures
        r is Ok,
        derives(*old(cs), *final(cs)),
        !present(*old(cs)) ==> *final(cs) == *old(cs),
        owns_bit(*final(cs), r->Ok_0),
        forall|run| #[trigger]
            live(*final(cs), run) ==> bit_value(r->Ok_0, run) == some_true(bits@, run),
        bits@.len() > 3 || all_variables(bits@) ==> !bit_is_constant(r->Ok_0),
        bits@.len() > 3 ==> adds(*old(cs), *final(cs), 2, 2),
        bits@.len() <= 3 && all_variables(bits@) ==> adds(
            *old(cs),
            *final(cs),
            (bits@.len() - 1) as nat,
            (bits@.len() - 1) as nat,
        ),
{
    let inner: Vec<_> = bits.iter().map(|b| b.inner.clone()).collect();
    ark_r1cs_std::boolean::Boolean::kary_or(&inner).map(|inner| Boolean { inner })
}

} // verus!
