//! The step circuit: one step consumes one order in its flat form and updates a state of
//! constant size. See [`crate::quality`] for the state and for what a step computes.
//!
//! The challenge and the two bounds of the time window are handed on unchanged, so that
//! they are fixed by the state of the first step.
//!
//! The adjacency check compares an order with the one before it only. That no two orders of
//! a vehicle overlap follows where the orders of each vehicle stand together in the stream,
//! as they do in one sorted by vehicle and start time.
use vstd::prelude::*;
use core::marker::PhantomData;
use ark_r1cs_std::alloc::AllocationMode;
use ark_relations::r1cs::SynthesisError;
use crate::field;
use crate::field::Fr;
use crate::gadgets;
use crate::otm::{FIELDS_PER_ORDER, MAX_ACTIONS, MAX_GOODS};
use crate::quality;
use crate::quality::{
    MAX_LATITUDE, MAX_LONGITUDE, STATE_LEN, STEP_CONSTRAINTS, STEP_WITNESSES, SUM_BITS, TIME_BITS,
};
use crate::r1cs;
use crate::r1cs::{Boolean, ConstraintSystem, FpVar};

verus! {

/// The bits of two lists are all true if and only if those of each list are.
proof fn lemma_all_true(bits: Seq<Boolean>, extra: Seq<Boolean>, run: Option<Seq<nat>>)
    ensures
        r1cs::all_true(bits + extra, run) == (r1cs::all_true(bits, run) && r1cs::all_true(
            extra,
            run,
        )),
{
    let more = bits + extra;
    if r1cs::all_true(more, run) {
        assert forall|i: int| 0 <= i < bits.len() implies r1cs::bit_value(
            #[trigger] bits[i],
            run,
        ) by {
            assert(more[i] == bits[i]);
        }
        assert forall|i: int| 0 <= i < extra.len() implies r1cs::bit_value(
            #[trigger] extra[i],
            run,
        ) by {
            assert(more[bits.len() + i] == extra[i]);
        }
    }
}

/// An assignment that can be completed to one of `b` can be completed to one of `c`, which adds
/// a comparison to `b`, where the comparison fits in it.
proof fn lemma_extends_leq(
    a: ConstraintSystem,
    b: ConstraintSystem,
    c: ConstraintSystem,
    w: Seq<nat>,
    x: FpVar,
    y: FpVar,
    n: nat,
)
    requires
        r1cs::grows(a, b),
        r1cs::extends(a, b, w),
        r1cs::owns_fp(a, x),
        r1cs::owns_fp(a, y),
        gadgets::leq_fits(r1cs::fp_value(x, Some(w)), r1cs::fp_value(y, Some(w)), n),
        forall|v: Seq<nat>|
            r1cs::live(b, Some(v)) && gadgets::leq_fits(
                r1cs::fp_value(x, Some(v)),
                r1cs::fp_value(y, Some(v)),
                n,
            ) ==> #[trigger] r1cs::extends(b, c, v),
    ensures
        r1cs::extends(a, c, w),
{
    assert forall|v: Seq<nat>|
        r1cs::live(b, Some(v)) && #[trigger] r1cs::same_values(a, w, v) implies r1cs::extends(
        b,
        c,
        v,
    ) by {
        r1cs::lemma_same_fp(a, w, v, x);
        r1cs::lemma_same_fp(a, w, v, y);
    }
    r1cs::lemma_extends(a, b, c, w);
}

/// Whether an action has one of the three types.
fn check_type(cs: &mut ConstraintSystem, a_type: &FpVar) -> (r: Result<Boolean, SynthesisError>)
    requires
        r1cs::owns_fp(*old(cs), *a_type),
    ensures
        r is Ok,
        r1cs::derives(*old(cs), *final(cs)),
        !r1cs::present(*old(cs)) ==> *final(cs) == *old(cs),
        r1cs::owns_bit(*final(cs), r->Ok_0),
        forall|run| #[trigger]
            r1cs::live(*final(cs), run) ==> r1cs::bit_value(r->Ok_0, run) == (1 <= r1cs::fp_value(
                *a_type,
                run,
            ) <= 3),
        !r1cs::fp_is_constant(*a_type) ==> r1cs::adds(*old(cs), *final(cs), 8, 8),
{
    let ghost cs0 = *cs;
    let t1 = r1cs::fp_is_eq(cs, a_type, &r1cs::fp_constant(&field::fr_from_u64(1)))?;
    let ghost cs1 = *cs;
    let t2 = r1cs::fp_is_eq(cs, a_type, &r1cs::fp_constant(&field::fr_from_u64(2)))?;
    let ghost cs2 = *cs;
    let t3 = r1cs::fp_is_eq(cs, a_type, &r1cs::fp_constant(&field::fr_from_u64(3)))?;
    let ghost cs3 = *cs;
    let types = vec![t1, t2, t3];
    let r = r1cs::bit_kary_or(cs, &types)?;
    proof {
        r1cs::lemma_derives(cs0, cs1, cs2);
        r1cs::lemma_derives(cs0, cs2, cs3);
        r1cs::lemma_derives(cs0, cs3, *cs);
        assert forall|run| #[trigger] r1cs::live(*cs, run) implies r1cs::bit_value(r, run) == (1
            <= r1cs::fp_value(*a_type, run) <= 3) by {
            assert(r1cs::some_true(types@, run) == (r1cs::bit_value(types@[0], run)
                || r1cs::bit_value(types@[1], run) || r1cs::bit_value(types@[2], run)));
        }
    }
    Ok(r)
}

/// Adds the checks of action `k` to `checks`.
fn check_action(
    cs: &mut ConstraintSystem,
    ext: &[FpVar],
    k: usize,
    t_min: &FpVar,
    t_max: &FpVar,
    checks: &mut Vec<Boolean>,
) -> (r: Result<(), SynthesisError>)
    requires
        r1cs::intact(*old(cs)),
        ext@.len() == FIELDS_PER_ORDER,
        k < MAX_ACTIONS,
        r1cs::owns_all(*old(cs), ext@),
        r1cs::owns_fp(*old(cs), *t_min),
        r1cs::owns_fp(*old(cs), *t_max),
        r1cs::owns_bits(*old(cs), old(checks)@),
    ensures
        r is Ok <==> r1cs::present(*old(cs)),
        r is Err ==> r->Err_0 == SynthesisError::MissingCS && *final(cs) == *old(cs),
        r is Ok ==> r1cs::grows(*old(cs), *final(cs)),
        r is Ok ==> r1cs::owns_bits(*final(cs), final(checks)@),
        r is Ok ==> r1cs::has_variable(final(checks)@),
        r is Ok && r1cs::satisfied(*final(cs)) is Some ==> r1cs::live(*final(cs), None),
        r is Ok ==> final(checks)@.len() == old(checks)@.len() + 8,
        r is Ok && r1cs::no_constants(ext@) ==> r1cs::adds(*old(cs), *final(cs), 337, 342),
        r is Ok ==> forall|w: Seq<nat>|
            r1cs::live(*old(cs), Some(w)) && quality::action_fits(
                r1cs::values(ext@, Some(w)),
                k as int,
                r1cs::fp_value(*t_min, Some(w)),
                r1cs::fp_value(*t_max, Some(w)),
            ) ==> #[trigger] r1cs::extends(*old(cs), *final(cs), w),
        r is Ok ==> r1cs::satisfied(*final(cs)) == r1cs::narrowed(
            r1cs::satisfied(*old(cs)),
            quality::action_fits(
                r1cs::values(ext@, None),
                k as int,
                r1cs::fp_value(*t_min, None),
                r1cs::fp_value(*t_max, None),
            ),
        ),
        r is Ok ==> forall|w: Seq<nat>| #[trigger]
            r1cs::live(*final(cs), Some(w)) ==> quality::action_fits(
                r1cs::values(ext@, Some(w)),
                k as int,
                r1cs::fp_value(*t_min, Some(w)),
                r1cs::fp_value(*t_max, Some(w)),
            ),
        r is Ok ==> forall|run| #[trigger]
            r1cs::live(*final(cs), run) ==> r1cs::all_true(final(checks)@, run) == (r1cs::all_true(
                old(checks)@,
                run,
            ) && quality::action_passes(
                r1cs::values(ext@, run),
                k as int,
                r1cs::fp_value(*t_min, run),
                r1cs::fp_value(*t_max, run),
            )),
{
    let ghost before = checks@;
    let idx: usize = 3 + 7 * k;
    let a_id = &ext[idx];
    let a_type = &ext[idx + 1];
    let a_start = &ext[idx + 2];
    let a_end = &ext[idx + 3];
    let l_id = &ext[idx + 4];
    let lat = &ext[idx + 5];
    let lon = &ext[idx + 6];

    let ghost cs0 = *cs;
    let c0 = gadgets::is_nonzero(cs, a_id)?;
    let ghost cs1 = *cs;
    let c1 = gadgets::is_nonzero(cs, l_id)?;
    proof {
        r1cs::lemma_derives(cs0, cs1, *cs);
    }

    // action_type in {1,2,3}
    let ghost cs1 = *cs;
    let c2 = check_type(cs, a_type)?;
    proof {
        r1cs::lemma_derives(cs0, cs1, *cs);
    }

    // start < end
    let ghost cs3 = *cs;
    let c3 = gadgets::is_lt(cs, a_start, a_end, TIME_BITS)?;

    // currentness: t_min <= start  AND  end <= t_max
    let ghost cs4 = *cs;
    let c4 = gadgets::is_leq(cs, t_min, a_start, TIME_BITS)?;
    let ghost cs5 = *cs;
    let c5 = gadgets::is_leq(cs, a_end, t_max, TIME_BITS)?;

    // range of the location
    let max_lat = r1cs::fp_constant(&field::fr_from_u64(MAX_LATITUDE));
    let ghost cs6 = *cs;
    let c6 = gadgets::is_leq(cs, lat, &max_lat, TIME_BITS)?;
    let max_lon = r1cs::fp_constant(&field::fr_from_u64(MAX_LONGITUDE));
    let ghost cs7 = *cs;
    let c7 = gadgets::is_leq(cs, lon, &max_lon, TIME_BITS)?;
    proof {
        assert forall|w: Seq<nat>|
            r1cs::live(cs0, Some(w)) && quality::action_fits(
                r1cs::values(ext@, Some(w)),
                k as int,
                r1cs::fp_value(*t_min, Some(w)),
                r1cs::fp_value(*t_max, Some(w)),
            ) implies #[trigger] r1cs::extends(cs0, *cs, w) by {
            let n = TIME_BITS as nat;
            assert(r1cs::extends(cs0, cs3, w));
            lemma_extends_leq(cs0, cs3, cs4, w, *a_end, *a_start, n);
            lemma_extends_leq(cs0, cs4, cs5, w, *t_min, *a_start, n);
            lemma_extends_leq(cs0, cs5, cs6, w, *a_end, *t_max, n);
            lemma_extends_leq(cs0, cs6, cs7, w, *lat, max_lat, n);
            lemma_extends_leq(cs0, cs7, *cs, w, *lon, max_lon, n);
        }
    }

    let ghost extra = seq![c0, c1, c2, c3, c4, c5, c6, c7];
    proof {
        assert forall|run| #[trigger] r1cs::live(*cs, run) implies r1cs::all_true(extra, run)
            == quality::action_passes(
            r1cs::values(ext@, run),
            k as int,
            r1cs::fp_value(*t_min, run),
            r1cs::fp_value(*t_max, run),
        ) by {
            assert(r1cs::all_true(extra, run) == (r1cs::bit_value(extra[0], run)
                && r1cs::bit_value(extra[1], run) && r1cs::bit_value(extra[2], run)
                && r1cs::bit_value(extra[3], run) && r1cs::bit_value(extra[4], run)
                && r1cs::bit_value(extra[5], run) && r1cs::bit_value(extra[6], run)
                && r1cs::bit_value(extra[7], run)));
        }
        assert forall|run| #[trigger] r1cs::live(*cs, run) implies r1cs::all_true(
            before + extra,
            run,
        ) == (r1cs::all_true(before, run) && r1cs::all_true(extra, run)) by {
            lemma_all_true(before, extra, run);
        }
        assert((before + extra)[before.len() as int + 7] == c7);
    }
    checks.push(c0);
    checks.push(c1);
    checks.push(c2);
    checks.push(c3);
    checks.push(c4);
    checks.push(c5);
    checks.push(c6);
    checks.push(c7);
    assert(checks@ == before + extra);
    Ok(())
}

/// Takes action `k` into the time span of the actions before it.
fn widen_span(
    cs: &mut ConstraintSystem,
    ext: &[FpVar],
    k: usize,
    start: &FpVar,
    end: &FpVar,
) -> (r: Result<(FpVar, FpVar), SynthesisError>)
    requires
        r1cs::intact(*old(cs)),
        ext@.len() == FIELDS_PER_ORDER,
        0 < k < MAX_ACTIONS,
        r1cs::owns_all(*old(cs), ext@),
        r1cs::owns_fp(*old(cs), *start),
        r1cs::owns_fp(*old(cs), *end),
        forall|run| #[trigger]
            r1cs::live(*old(cs), run) ==> r1cs::fp_value(*start, run) == quality::earliest(
                r1cs::values(ext@, run),
                k as int,
            ) && r1cs::fp_value(*end, run) == quality::latest(r1cs::values(ext@, run), k as int),
    ensures
        r is Ok <==> r1cs::present(*old(cs)),
        r is Err ==> r->Err_0 == SynthesisError::MissingCS,
        r is Ok ==> r1cs::grows(*old(cs), *final(cs)),
        r is Ok ==> r1cs::owns_fp(*final(cs), r->Ok_0.0),
        r is Ok ==> r1cs::owns_fp(*final(cs), r->Ok_0.1),
        r is Ok && r1cs::no_constants(ext@) ==> r1cs::adds(*old(cs), *final(cs), 132, 134),
        r is Ok ==> forall|w: Seq<nat>|
            r1cs::live(*old(cs), Some(w)) && quality::widening_fits(
                r1cs::values(ext@, Some(w)),
                k as int,
            ) ==> #[trigger] r1cs::extends(*old(cs), *final(cs), w),
        r is Ok ==> r1cs::satisfied(*final(cs)) == r1cs::narrowed(
            r1cs::satisfied(*old(cs)),
            quality::widening_fits(r1cs::values(ext@, None), k as int),
        ),
        r is Ok ==> forall|w: Seq<nat>| #[trigger]
            r1cs::live(*final(cs), Some(w)) ==> quality::widening_fits(
                r1cs::values(ext@, Some(w)),
                k as int,
            ),
        r is Ok ==> forall|run| #[trigger]
            r1cs::live(*final(cs), run) ==> r1cs::fp_value(r->Ok_0.0, run) == quality::earliest(
                r1cs::values(ext@, run),
                k + 1,
            ) && r1cs::fp_value(r->Ok_0.1, run) == quality::latest(r1cs::values(ext@, run), k + 1),
{
    let idx: usize = 3 + 7 * k;
    let a_start = &ext[idx + 2];
    let a_end = &ext[idx + 3];
    let ghost cs0 = *cs;
    let le = gadgets::is_leq(cs, a_start, start, TIME_BITS)?;
    let ghost cs1 = *cs;
    let min_start = r1cs::fp_select(cs, &le, a_start, start)?;
    let ghost cs2 = *cs;
    let ge = gadgets::is_leq(cs, end, a_end, TIME_BITS)?;
    let ghost cs3 = *cs;
    let max_end = r1cs::fp_select(cs, &ge, a_end, end)?;
    proof {
        assert forall|w: Seq<nat>|
            r1cs::live(cs0, Some(w)) && quality::widening_fits(
                r1cs::values(ext@, Some(w)),
                k as int,
            ) implies #[trigger] r1cs::extends(cs0, *cs, w) by {
            assert(r1cs::extends(cs0, cs1, w));
            r1cs::lemma_extends_derives(cs0, cs1, cs2, w);
            lemma_extends_leq(cs0, cs2, cs3, w, *end, *a_end, TIME_BITS as nat);
            r1cs::lemma_extends_derives(cs0, cs3, *cs, w);
        }
    }
    Ok((min_start, max_end))
}

/// Adds the checks of all actions to `checks`, and finds the earliest start and the latest end.
fn check_actions(
    cs: &mut ConstraintSystem,
    ext: &[FpVar],
    t_min: &FpVar,
    t_max: &FpVar,
    checks: &mut Vec<Boolean>,
) -> (r: Result<(FpVar, FpVar), SynthesisError>)
    requires
        r1cs::intact(*old(cs)),
        ext@.len() == FIELDS_PER_ORDER,
        r1cs::owns_all(*old(cs), ext@),
        r1cs::owns_fp(*old(cs), *t_min),
        r1cs::owns_fp(*old(cs), *t_max),
        r1cs::owns_bits(*old(cs), old(checks)@),
    ensures
        r is Ok <==> r1cs::present(*old(cs)),
        r is Err ==> r->Err_0 == SynthesisError::MissingCS && *final(cs) == *old(cs),
        r is Ok ==> r1cs::grows(*old(cs), *final(cs)),
        r is Ok ==> r1cs::owns_bits(*final(cs), final(checks)@),
        r is Ok ==> r1cs::has_variable(final(checks)@),
        r is Ok ==> r1cs::owns_fp(*final(cs), r->Ok_0.0),
        r is Ok ==> r1cs::owns_fp(*final(cs), r->Ok_0.1),
        r is Ok && r1cs::satisfied(*final(cs)) is Some ==> r1cs::live(*final(cs), None),
        r is Ok ==> final(checks)@.len() == old(checks)@.len() + 64,
        r is Ok && r1cs::no_constants(ext@) ==> r1cs::adds(*old(cs), *final(cs), 3620, 3674),
        r is Ok ==> forall|w: Seq<nat>|
            r1cs::live(*old(cs), Some(w)) && quality::actions_fit(
                r1cs::values(ext@, Some(w)),
                MAX_ACTIONS as int,
                r1cs::fp_value(*t_min, Some(w)),
                r1cs::fp_value(*t_max, Some(w)),
            ) ==> #[trigger] r1cs::extends(*old(cs), *final(cs), w),
        r is Ok ==> r1cs::satisfied(*final(cs)) == r1cs::narrowed(
            r1cs::satisfied(*old(cs)),
            quality::actions_fit(
                r1cs::values(ext@, None),
                MAX_ACTIONS as int,
                r1cs::fp_value(*t_min, None),
                r1cs::fp_value(*t_max, None),
            ),
        ),
        r is Ok ==> forall|w: Seq<nat>| #[trigger]
            r1cs::live(*final(cs), Some(w)) ==> quality::actions_fit(
                r1cs::values(ext@, Some(w)),
                MAX_ACTIONS as int,
                r1cs::fp_value(*t_min, Some(w)),
                r1cs::fp_value(*t_max, Some(w)),
            ),
        r is Ok ==> forall|run| #[trigger]
            r1cs::live(*final(cs), run) ==> r1cs::all_true(final(checks)@, run) == (r1cs::all_true(
                old(checks)@,
                run,
            ) && quality::actions_pass(
                r1cs::values(ext@, run),
                MAX_ACTIONS as int,
                r1cs::fp_value(*t_min, run),
                r1cs::fp_value(*t_max, run),
            )),
        r is Ok ==> forall|run| #[trigger]
            r1cs::live(*final(cs), run) ==> r1cs::fp_value(r->Ok_0.0, run) == quality::earliest(
                r1cs::values(ext@, run),
                MAX_ACTIONS as int,
            ) && r1cs::fp_value(r->Ok_0.1, run) == quality::latest(
                r1cs::values(ext@, run),
                MAX_ACTIONS as int,
            ),
{
    let ghost cs0 = *cs;
    let ghost checks0 = checks@;
    check_action(cs, ext, 0, t_min, t_max, checks)?;
    let mut min_start = ext[5].clone();
    let mut max_end = ext[6].clone();
    let mut k: usize = 1;
    while k < MAX_ACTIONS
        invariant
            1 <= k <= MAX_ACTIONS,
            ext@.len() == FIELDS_PER_ORDER,
            cs0 == *old(cs),
            checks0 == old(checks)@,
            checks@.len() == checks0.len() + 8 * k,
            r1cs::present(cs0),
            r1cs::intact(*cs),
            r1cs::grows(cs0, *cs),
            r1cs::owns_all(*cs, ext@),
            r1cs::owns_fp(*cs, *t_min),
            r1cs::owns_fp(*cs, *t_max),
            r1cs::owns_fp(*cs, min_start),
            r1cs::owns_fp(*cs, max_end),
            r1cs::owns_bits(*cs, checks@),
            r1cs::has_variable(checks@),
            r1cs::satisfied(*cs) is Some ==> r1cs::live(*cs, None),
            r1cs::owns_fp(cs0, *t_min),
            r1cs::owns_fp(cs0, *t_max),
            r1cs::owns_all(cs0, ext@),
            r1cs::no_constants(ext@) ==> r1cs::adds(
                cs0,
                *cs,
                (337 * k + 132 * (k - 1)) as nat,
                (342 * k + 134 * (k - 1)) as nat,
            ),
            forall|w: Seq<nat>|
                r1cs::live(cs0, Some(w)) && quality::actions_fit(
                    r1cs::values(ext@, Some(w)),
                    k as int,
                    r1cs::fp_value(*t_min, Some(w)),
                    r1cs::fp_value(*t_max, Some(w)),
                ) ==> #[trigger] r1cs::extends(cs0, *cs, w),
            r1cs::satisfied(*cs) == r1cs::narrowed(
                r1cs::satisfied(cs0),
                quality::actions_fit(
                    r1cs::values(ext@, None),
                    k as int,
                    r1cs::fp_value(*t_min, None),
                    r1cs::fp_value(*t_max, None),
                ),
            ),
            forall|w: Seq<nat>| #[trigger]
                r1cs::live(*cs, Some(w)) ==> quality::actions_fit(
                    r1cs::values(ext@, Some(w)),
                    k as int,
                    r1cs::fp_value(*t_min, Some(w)),
                    r1cs::fp_value(*t_max, Some(w)),
                ),
            forall|run| #[trigger]
                r1cs::live(*cs, run) ==> r1cs::all_true(checks@, run) == (r1cs::all_true(
                    checks0,
                    run,
                ) && quality::actions_pass(
                    r1cs::values(ext@, run),
                    k as int,
                    r1cs::fp_value(*t_min, run),
                    r1cs::fp_value(*t_max, run),
                )),
            forall|run| #[trigger]
                r1cs::live(*cs, run) ==> r1cs::fp_value(min_start, run) == quality::earliest(
                    r1cs::values(ext@, run),
                    k as int,
                ) && r1cs::fp_value(max_end, run) == quality::latest(r1cs::values(ext@, run), k as int),
        decreases MAX_ACTIONS - k,
    {
        let ghost cs1 = *cs;
        check_action(cs, ext, k, t_min, t_max, checks)?;
        let ghost cs2 = *cs;
        let span = widen_span(cs, ext, k, &min_start, &max_end)?;
        proof {
            assert forall|w: Seq<nat>|
                r1cs::live(cs0, Some(w)) && quality::actions_fit(
                    r1cs::values(ext@, Some(w)),
                    k + 1,
                    r1cs::fp_value(*t_min, Some(w)),
                    r1cs::fp_value(*t_max, Some(w)),
                ) implies #[trigger] r1cs::extends(cs0, *cs, w) by {
                let x = r1cs::values(ext@, Some(w));
                let lo = r1cs::fp_value(*t_min, Some(w));
                let hi = r1cs::fp_value(*t_max, Some(w));
                assert(quality::action_fits(x, k as int, lo, hi));
                assert(quality::widening_fits(x, k as int));
                assert(r1cs::extends(cs0, cs1, w));
                assert forall|v: Seq<nat>|
                    r1cs::live(cs1, Some(v)) && #[trigger] r1cs::same_values(
                        cs0,
                        w,
                        v,
                    ) implies r1cs::extends(cs1, cs2, v) by {
                    r1cs::lemma_same_all(cs0, w, v, ext@);
                    r1cs::lemma_same_fp(cs0, w, v, *t_min);
                    r1cs::lemma_same_fp(cs0, w, v, *t_max);
                }
                r1cs::lemma_extends(cs0, cs1, cs2, w);
                assert forall|v: Seq<nat>|
                    r1cs::live(cs2, Some(v)) && #[trigger] r1cs::same_values(
                        cs0,
                        w,
                        v,
                    ) implies r1cs::extends(cs2, *cs, v) by {
                    r1cs::lemma_same_all(cs0, w, v, ext@);
                }
                r1cs::lemma_extends(cs0, cs2, *cs, w);
            }
        }
        min_start = span.0;
        max_end = span.1;
        k = k + 1;
    }
    Ok((min_start, max_end))
}

/// Adds the checks of good `k` to `checks`, and its weight to that of the goods before it.
fn check_good(
    cs: &mut ConstraintSystem,
    ext: &[FpVar],
    k: usize,
    total: &FpVar,
    checks: &mut Vec<Boolean>,
) -> (r: Result<FpVar, SynthesisError>)
    requires
        ext@.len() == FIELDS_PER_ORDER,
        k < MAX_GOODS,
        r1cs::owns_all(*old(cs), ext@),
        r1cs::owns_fp(*old(cs), *total),
        r1cs::owns_bits(*old(cs), old(checks)@),
        forall|run| #[trigger]
            r1cs::live(*old(cs), run) ==> r1cs::fp_value(*total, run) == quality::weight(
                r1cs::values(ext@, run),
                k as int,
            ),
    ensures
        r is Ok,
        r1cs::derives(*old(cs), *final(cs)),
        final(checks)@.len() == old(checks)@.len() + 3,
        r1cs::no_constants(ext@) ==> r1cs::adds(*old(cs), *final(cs), 7, 7),
        r1cs::owns_bits(*final(cs), final(checks)@),
        r1cs::has_variable(old(checks)@) ==> r1cs::has_variable(final(checks)@),
        r1cs::owns_fp(*final(cs), r->Ok_0),
        forall|run| #[trigger]
            r1cs::live(*final(cs), run) ==> r1cs::all_true(final(checks)@, run) == (r1cs::all_true(
                old(checks)@,
                run,
            ) && quality::good_passes(r1cs::values(ext@, run), k as int)),
        forall|run| #[trigger]
            r1cs::live(*final(cs), run) ==> r1cs::fp_value(r->Ok_0, run) == quality::weight(
                r1cs::values(ext@, run),
                k + 1,
            ),
{
    let ghost before = checks@;
    let idx: usize = 3 + 7 * MAX_ACTIONS + 3 * k;
    let g_id = &ext[idx];
    let g_qty = &ext[idx + 1];
    let g_wt = &ext[idx + 2];
    let ghost cs0 = *cs;
    let c0 = gadgets::is_nonzero(cs, g_id)?;
    let ghost cs1 = *cs;
    let c1 = gadgets::is_nonzero(cs, g_qty)?;
    let ghost cs2 = *cs;
    let c2 = gadgets::is_nonzero(cs, g_wt)?;
    let ghost cs3 = *cs;
    let ghost extra = seq![c0, c1, c2];
    checks.push(c0);
    checks.push(c1);
    checks.push(c2);
    let load = r1cs::fp_mul(cs, g_wt, g_qty);
    let sum = r1cs::fp_add(cs, total, &load);
    proof {
        r1cs::lemma_derives(cs0, cs1, cs2);
        r1cs::lemma_derives(cs0, cs2, cs3);
        r1cs::lemma_derives(cs0, cs3, *cs);
        assert(checks@ == before + extra);
        assert forall|run| #[trigger] r1cs::live(*cs, run) implies r1cs::all_true(checks@, run) == (
        r1cs::all_true(before, run) && quality::good_passes(r1cs::values(ext@, run), k as int)) by {
            lemma_all_true(before, extra, run);
            assert(r1cs::all_true(extra, run) == (r1cs::bit_value(extra[0], run)
                && r1cs::bit_value(extra[1], run) && r1cs::bit_value(extra[2], run)));
        }
        if r1cs::has_variable(before) {
            let i = choose|i: int|
                0 <= i < before.len() && !r1cs::bit_is_constant(#[trigger] before[i]);
            assert(checks@[i] == before[i]);
        }
    }
    Ok(sum)
}

/// Adds the checks of all goods to `checks`, and sums up their weight.
fn check_goods(cs: &mut ConstraintSystem, ext: &[FpVar], checks: &mut Vec<Boolean>) -> (r: Result<
    FpVar,
    SynthesisError,
>)
    requires
        ext@.len() == FIELDS_PER_ORDER,
        r1cs::owns_all(*old(cs), ext@),
        r1cs::owns_bits(*old(cs), old(checks)@),
    ensures
        r is Ok,
        r1cs::derives(*old(cs), *final(cs)),
        final(checks)@.len() == old(checks)@.len() + 24,
        r1cs::no_constants(ext@) ==> r1cs::adds(*old(cs), *final(cs), 56, 56),
        r1cs::owns_bits(*final(cs), final(checks)@),
        r1cs::has_variable(old(checks)@) ==> r1cs::has_variable(final(checks)@),
        r1cs::owns_fp(*final(cs), r->Ok_0),
        forall|run| #[trigger]
            r1cs::live(*final(cs), run) ==> r1cs::all_true(final(checks)@, run) == (r1cs::all_true(
                old(checks)@,
                run,
            ) && quality::goods_pass(r1cs::values(ext@, run), MAX_GOODS as int)),
        forall|run| #[trigger]
            r1cs::live(*final(cs), run) ==> r1cs::fp_value(r->Ok_0, run) == quality::weight(
                r1cs::values(ext@, run),
                MAX_GOODS as int,
            ),
{
    let ghost cs0 = *cs;
    let ghost checks0 = checks@;
    let mut total_weight = r1cs::fp_constant(&Fr::zero());
    let mut k: usize = 0;
    proof {
        r1cs::lemma_derives_same(cs0);
    }
    while k < MAX_GOODS
        invariant
            k <= MAX_GOODS,
            ext@.len() == FIELDS_PER_ORDER,
            r1cs::derives(cs0, *cs),
            checks@.len() == checks0.len() + 3 * k,
            r1cs::no_constants(ext@) ==> r1cs::adds(cs0, *cs, 7 * k as nat, 7 * k as nat),
            r1cs::owns_all(*cs, ext@),
            r1cs::owns_bits(*cs, checks@),
            r1cs::has_variable(checks0) ==> r1cs::has_variable(checks@),
            r1cs::owns_fp(*cs, total_weight),
            forall|run| #[trigger]
                r1cs::live(*cs, run) ==> r1cs::all_true(checks@, run) == (r1cs::all_true(
                    checks0,
                    run,
                ) && quality::goods_pass(r1cs::values(ext@, run), k as int)),
            forall|run| #[trigger]
                r1cs::live(*cs, run) ==> r1cs::fp_value(total_weight, run) == quality::weight(
                    r1cs::values(ext@, run),
                    k as int,
                ),
        decreases MAX_GOODS - k,
    {
        let ghost before = *cs;
        total_weight = check_good(cs, ext, k, &total_weight, checks)?;
        proof {
            r1cs::lemma_derives(cs0, before, *cs);
        }
        k = k + 1;
    }
    Ok(total_weight)
}

/// In every run of `cs`, `b` is true if and only if `x` is one.
pub open spec fn reads_as(cs: ConstraintSystem, x: FpVar, b: Boolean) -> bool {
    forall|run| #[trigger]
        r1cs::live(cs, run) ==> r1cs::bit_value(b, run) == (r1cs::fp_value(x, run) == 1)
}

/// Reads a field element that is to be zero or one as a truth value, and enforces that it is
/// zero or one.
///
/// `anchor` is any variable. It stands on both sides of the constraint, so that a constant is
/// held to it as well.
pub fn fp_to_bool(cs: &mut ConstraintSystem, x: &FpVar, anchor: &FpVar) -> (r: Result<
    Boolean,
    SynthesisError,
>)
    requires
        r1cs::owns_fp(*old(cs), *x),
        r1cs::owns_fp(*old(cs), *anchor),
        !r1cs::fp_is_constant(*anchor),
    ensures
        r is Ok,
        r1cs::grows(*old(cs), *final(cs)),
        r1cs::owns_bit(*final(cs), r->Ok_0),
        r1cs::bit_is_constant(r->Ok_0) == r1cs::fp_is_constant(*x),
        reads_as(*final(cs), *x, r->Ok_0),
        r1cs::satisfied(*final(cs)) == r1cs::narrowed(
            r1cs::satisfied(*old(cs)),
            r1cs::fp_value(*x, None) <= 1,
        ),
        forall|w: Seq<nat>| #[trigger]
            r1cs::live(*final(cs), Some(w)) ==> r1cs::fp_value(*x, Some(w)) <= 1,
        forall|w: Seq<nat>|
            r1cs::live(*old(cs), Some(w)) && r1cs::fp_value(*x, Some(w)) <= 1
                ==> #[trigger] r1cs::extends(*old(cs), *final(cs), w),
        r1cs::fp_is_constant(*x) ==> r1cs::adds(*old(cs), *final(cs), 0, 1),
        !r1cs::fp_is_constant(*x) ==> r1cs::adds(*old(cs), *final(cs), 2, 3),
{
    let ghost cs0 = *cs;
    let bit = r1cs::fp_is_eq(cs, x, &r1cs::fp_constant(&Fr::one()))?;
    let digit = r1cs::fp_from_bit(cs, &bit);
    let left = r1cs::fp_add(cs, x, anchor);
    let right = r1cs::fp_add(cs, &digit, anchor);
    let ghost cs1 = *cs;
    r1cs::fp_enforce_equal(cs, &left, &right)?;
    proof {
        assert forall|run| #[trigger] r1cs::live(cs1, run) implies (r1cs::fp_value(left, run)
            == r1cs::fp_value(right, run)) == (r1cs::fp_value(*x, run) <= 1) by {
            reveal(r1cs::fp_value);
            lemma_same_shift(
                r1cs::fp_value(*x, run),
                r1cs::fp_value(digit, run),
                r1cs::fp_value(*anchor, run),
            );
        }
        assert forall|w: Seq<nat>|
            r1cs::live(cs0, Some(w)) && r1cs::fp_value(*x, Some(w)) <= 1 implies
            #[trigger] r1cs::extends(cs0, *cs, w) by {
            assert(r1cs::extends(cs0, cs1, w));
            assert forall|v: Seq<nat>|
                r1cs::live(cs1, Some(v)) && #[trigger] r1cs::same_values(
                    cs0,
                    w,
                    v,
                ) implies r1cs::extends(cs1, *cs, v) by {
                r1cs::lemma_same_fp(cs0, w, v, *x);
            }
            r1cs::lemma_extends(cs0, cs1, *cs, w);
        }
    }
    Ok(bit)
}

/// Field elements are equal if and only if they are after the same is added to both.
proof fn lemma_same_shift(a: nat, b: nat, c: nat)
    requires
        a < field::modulus(),
        b < field::modulus(),
        c < field::modulus(),
    ensures
        ((a + c) % field::modulus() == (b + c) % field::modulus()) == (a == b),
{
}

/// Reads the marker of an order before, as `fp_to_bool` reads any field element.
pub fn has_prev_to_bool(cs: &mut ConstraintSystem, x: &FpVar, anchor: &FpVar) -> (r: Result<
    Boolean,
    SynthesisError,
>)
    requires
        r1cs::owns_fp(*old(cs), *x),
        r1cs::owns_fp(*old(cs), *anchor),
        !r1cs::fp_is_constant(*anchor),
    ensures
        r is Ok,
        r1cs::grows(*old(cs), *final(cs)),
        r1cs::owns_bit(*final(cs), r->Ok_0),
        r1cs::bit_is_constant(r->Ok_0) == r1cs::fp_is_constant(*x),
        reads_as(*final(cs), *x, r->Ok_0),
        r1cs::satisfied(*final(cs)) == r1cs::narrowed(
            r1cs::satisfied(*old(cs)),
            r1cs::fp_value(*x, None) <= 1,
        ),
        forall|w: Seq<nat>| #[trigger]
            r1cs::live(*final(cs), Some(w)) ==> r1cs::fp_value(*x, Some(w)) <= 1,
        forall|w: Seq<nat>|
            r1cs::live(*old(cs), Some(w)) && r1cs::fp_value(*x, Some(w)) <= 1
                ==> #[trigger] r1cs::extends(*old(cs), *final(cs), w),
        r1cs::fp_is_constant(*x) ==> r1cs::adds(*old(cs), *final(cs), 0, 1),
        !r1cs::fp_is_constant(*x) ==> r1cs::adds(*old(cs), *final(cs), 2, 3),
{
    fp_to_bool(cs, x, anchor)
}

/// Whether the order, which starts at `min_start`, does not start before the order before it
/// has ended, if that one has the same vehicle.
fn check_adjacency(
    cs: &mut ConstraintSystem,
    z_in: &[FpVar],
    ext: &[FpVar],
    min_start: &FpVar,
    anchor: &FpVar,
) -> (r: Result<Boolean, SynthesisError>)
    requires
        r1cs::intact(*old(cs)),
        z_in@.len() == STATE_LEN,
        ext@.len() == FIELDS_PER_ORDER,
        r1cs::owns_all(*old(cs), z_in@),
        r1cs::owns_all(*old(cs), ext@),
        r1cs::owns_fp(*old(cs), *min_start),
        r1cs::owns_fp(*old(cs), *anchor),
        !r1cs::fp_is_constant(*anchor),
        forall|run| #[trigger]
            r1cs::live(*old(cs), run) ==> r1cs::fp_value(*min_start, run) == quality::earliest(
                r1cs::values(ext@, run),
                MAX_ACTIONS as int,
            ),
    ensures
        r is Ok <==> r1cs::present(*old(cs)),
        r is Err ==> r->Err_0 == SynthesisError::MissingCS,
        r is Ok ==> r1cs::grows(*old(cs), *final(cs)),
        r is Ok ==> r1cs::owns_bit(*final(cs), r->Ok_0),
        r is Ok && r1cs::no_constants(z_in@) && r1cs::no_constants(ext@) ==> r1cs::adds(
            *old(cs),
            *final(cs),
            71,
            73,
        ),
        r is Ok ==> forall|w: Seq<nat>|
            r1cs::live(*old(cs), Some(w)) && quality::adjacency_fits(
                r1cs::values(z_in@, Some(w)),
                r1cs::values(ext@, Some(w)),
            ) ==> #[trigger] r1cs::extends(*old(cs), *final(cs), w),
        r is Ok ==> r1cs::satisfied(*final(cs)) == r1cs::narrowed(
            r1cs::satisfied(*old(cs)),
            quality::adjacency_fits(r1cs::values(z_in@, None), r1cs::values(ext@, None)),
        ),
        r is Ok ==> forall|w: Seq<nat>| #[trigger]
            r1cs::live(*final(cs), Some(w)) ==> quality::adjacency_fits(
                r1cs::values(z_in@, Some(w)),
                r1cs::values(ext@, Some(w)),
            ),
        r is Ok ==> forall|run| #[trigger]
            r1cs::live(*final(cs), run) ==> r1cs::bit_value(r->Ok_0, run)
                == quality::adjacency_passes(r1cs::values(z_in@, run), r1cs::values(ext@, run)),
{
    let ghost cs0 = *cs;
    let same_vehicle = r1cs::fp_is_eq(cs, &ext[1], &z_in[4])?;
    let ghost cs1 = *cs;
    let has_prev = has_prev_to_bool(cs, &z_in[6], anchor)?;
    let ghost cs2 = *cs;
    let active = r1cs::bit_and(cs, &same_vehicle, &has_prev);
    let ghost cs3 = *cs;
    let ordered = gadgets::is_leq(cs, &z_in[5], min_start, TIME_BITS)?;
    let ghost cs4 = *cs;
    // !active OR ordered
    let inactive = r1cs::bit_not(cs, &active);
    let r = r1cs::bit_or(cs, &inactive, &ordered);
    proof {
        assert forall|w: Seq<nat>|
            r1cs::live(cs0, Some(w)) && quality::adjacency_fits(
                r1cs::values(z_in@, Some(w)),
                r1cs::values(ext@, Some(w)),
            ) implies #[trigger] r1cs::extends(cs0, *cs, w) by {
            assert(r1cs::extends(cs0, cs1, w));
            assert forall|v: Seq<nat>|
                r1cs::live(cs1, Some(v)) && #[trigger] r1cs::same_values(
                    cs0,
                    w,
                    v,
                ) implies r1cs::extends(cs1, cs2, v) by {
                r1cs::lemma_same_fp(cs0, w, v, z_in@[6]);
            }
            r1cs::lemma_extends(cs0, cs1, cs2, w);
            r1cs::lemma_extends_derives(cs0, cs2, cs3, w);
            lemma_extends_leq(cs0, cs3, cs4, w, z_in@[5], *min_start, TIME_BITS as nat);
            r1cs::lemma_extends_derives(cs0, cs4, *cs, w);
        }
    }
    Ok(r)
}

/// Takes every field of the order into the fingerprint `phi`, each with the current power
/// `pw` of the challenge, which rises by one with every field.
fn fingerprint(cs: &mut ConstraintSystem, ext: &[FpVar], phi: &FpVar, pw: &FpVar, r: &FpVar) -> (res:
    (FpVar, FpVar))
    requires
        ext@.len() == FIELDS_PER_ORDER,
        r1cs::owns_all(*old(cs), ext@),
        r1cs::owns_fp(*old(cs), *phi),
        r1cs::owns_fp(*old(cs), *pw),
        r1cs::owns_fp(*old(cs), *r),
    ensures
        r1cs::derives(*old(cs), *final(cs)),
        r1cs::no_constants(ext@) && !r1cs::fp_is_constant(*pw) && !r1cs::fp_is_constant(*r)
            ==> r1cs::adds(*old(cs), *final(cs), 166, 166),
        r1cs::owns_fp(*final(cs), res.0),
        r1cs::owns_fp(*final(cs), res.1),
        forall|run| #[trigger]
            r1cs::live(*final(cs), run) ==> r1cs::fp_value(res.0, run) == quality::fingerprint_after(
                r1cs::fp_value(*phi, run),
                r1cs::fp_value(*pw, run),
                r1cs::fp_value(*r, run),
                r1cs::values(ext@, run),
                FIELDS_PER_ORDER as int,
            ),
        forall|run| #[trigger]
            r1cs::live(*final(cs), run) ==> r1cs::fp_value(res.1, run) == quality::power_after(
                r1cs::fp_value(*pw, run),
                r1cs::fp_value(*r, run),
                FIELDS_PER_ORDER as int,
            ),
{
    let ghost cs0 = *cs;
    let mut phi_out = phi.clone();
    let mut pw_out = pw.clone();
    let mut k: usize = 0;
    proof {
        r1cs::lemma_derives_same(cs0);
    }
    while k < FIELDS_PER_ORDER
        invariant
            k <= FIELDS_PER_ORDER,
            ext@.len() == FIELDS_PER_ORDER,
            r1cs::derives(cs0, *cs),
            r1cs::no_constants(ext@) && !r1cs::fp_is_constant(*pw) && !r1cs::fp_is_constant(*r)
                ==> r1cs::adds(cs0, *cs, 2 * k as nat, 2 * k as nat),
            !r1cs::fp_is_constant(*pw) ==> !r1cs::fp_is_constant(pw_out),
            r1cs::owns_all(*cs, ext@),
            r1cs::owns_fp(*cs, *r),
            r1cs::owns_fp(*cs, phi_out),
            r1cs::owns_fp(*cs, pw_out),
            forall|run| #[trigger]
                r1cs::live(*cs, run) ==> r1cs::fp_value(phi_out, run) == quality::fingerprint_after(
                    r1cs::fp_value(*phi, run),
                    r1cs::fp_value(*pw, run),
                    r1cs::fp_value(*r, run),
                    r1cs::values(ext@, run),
                    k as int,
                ),
            forall|run| #[trigger]
                r1cs::live(*cs, run) ==> r1cs::fp_value(pw_out, run) == quality::power_after(
                    r1cs::fp_value(*pw, run),
                    r1cs::fp_value(*r, run),
                    k as int,
                ),
        decreases FIELDS_PER_ORDER - k,
    {
        let ghost cs1 = *cs;
        let term = r1cs::fp_mul(cs, &pw_out, &ext[k]);
        phi_out = r1cs::fp_add(cs, &phi_out, &term);
        let ghost cs2 = *cs;
        pw_out = r1cs::fp_mul(cs, &pw_out, r);
        proof {
            r1cs::lemma_derives(cs0, cs1, cs2);
            r1cs::lemma_derives(cs0, cs2, *cs);
        }
        k = k + 1;
    }
    (phi_out, pw_out)
}

/// The step circuit over the field `F`.
#[derive(Debug)]
pub struct DataQualityStepCircuit<F> {
    _f: PhantomData<F>,
}

impl<F> Clone for DataQualityStepCircuit<F> {
    fn clone(&self) -> (r: Self)
        ensures
            r == *self,
    {
        Self { _f: PhantomData }
    }
}

impl DataQualityStepCircuit<Fr> {
    /// The circuit, which has no parameters.
    pub closed spec fn circuit() -> Self {
        Self { _f: PhantomData }
    }

    pub fn new() -> (r: Self)
        ensures
            r == Self::circuit(),
    {
        Self { _f: PhantomData }
    }

    /// Adds the constraints of one step to `cs`, and gives the variables of the next state.
    ///
    /// `z_in` holds the state and `ext` one order in its flat form. In every run of the system
    /// the values of the next state are those that `quality::next_state` computes from the
    /// values of `z_in` and `ext`; so they are in the prover's own assignment, and no other
    /// assignment that meets the constraints can claim different ones. A failed check makes
    /// the first element zero and leaves the constraints met: what they demand besides is only
    /// `quality::order_fits`. Whatever assignment meets that can be completed to one that meets
    /// the constraints, so they are the constraints of one circuit, the same for every order.
    /// Where the state and the order are variables, a step always adds the same number of
    /// variables and of constraints.
    pub fn step(&self, cs: &mut ConstraintSystem, z_in: &[FpVar], ext: &[FpVar]) -> (r: Result<
        Vec<FpVar>,
        SynthesisError,
    >)
        requires
            r1cs::intact(*old(cs)),
            z_in@.len() == STATE_LEN,
            ext@.len() == FIELDS_PER_ORDER,
            r1cs::owns_all(*old(cs), z_in@),
            r1cs::owns_all(*old(cs), ext@),
        ensures
            r is Ok <==> r1cs::present(*old(cs)),
            r is Err ==> r->Err_0 == SynthesisError::MissingCS && *final(cs) == *old(cs),
            r is Ok ==> r1cs::grows(*old(cs), *final(cs)),
            r is Ok ==> r->Ok_0@.len() == STATE_LEN,
            r is Ok ==> r1cs::owns_all(*final(cs), r->Ok_0@),
            r is Ok ==> forall|run| #[trigger]
                r1cs::live(*final(cs), run) ==> r1cs::values(r->Ok_0@, run) == quality::next_state(
                    r1cs::values(z_in@, run),
                    r1cs::values(ext@, run),
                ),
            r is Ok ==> r1cs::satisfied(*final(cs)) == r1cs::narrowed(
                r1cs::satisfied(*old(cs)),
                quality::order_fits(r1cs::values(z_in@, None), r1cs::values(ext@, None)),
            ),
            r is Ok ==> forall|w: Seq<nat>| #[trigger]
                r1cs::live(*final(cs), Some(w)) ==> quality::order_fits(
                    r1cs::values(z_in@, Some(w)),
                    r1cs::values(ext@, Some(w)),
                ),
            r is Ok ==> forall|w: Seq<nat>|
                r1cs::live(*old(cs), Some(w)) && quality::order_fits(
                    r1cs::values(z_in@, Some(w)),
                    r1cs::values(ext@, Some(w)),
                ) ==> #[trigger] r1cs::extends(*old(cs), *final(cs), w),
            r is Ok && r1cs::no_constants(z_in@) && r1cs::no_constants(ext@) ==> r1cs::adds(
                *old(cs),
                *final(cs),
                STEP_WITNESSES as nat,
                STEP_CONSTRAINTS as nat,
            ),
    {
        let ghost cs0 = *cs;
        let valid_in = &z_in[0];
        let r = &z_in[3];
        let t_min = &z_in[7];
        let t_max = &z_in[8];
        let order_id = &ext[0];
        let vehicle_id = &ext[1];
        let capacity = &ext[2];

        // row-local validity
        let mut checks: Vec<Boolean> = Vec::new();
        let c0 = gadgets::is_nonzero(cs, order_id)?;
        let ghost cs1 = *cs;
        let c1 = gadgets::is_nonzero(cs, vehicle_id)?;
        let ghost cs2 = *cs;
        let c2 = gadgets::is_nonzero(cs, capacity)?;
        let ghost cs3 = *cs;
        proof {
            r1cs::lemma_derives(cs0, cs1, cs2);
            r1cs::lemma_derives(cs0, cs2, cs3);
        }
        checks.push(c0);
        checks.push(c1);
        checks.push(c2);
        let ghost ids = checks@;
        assert forall|run| r1cs::all_true(ids, run) == (r1cs::bit_value(c0, run) && r1cs::bit_value(
            c1,
            run,
        ) && r1cs::bit_value(c2, run)) by {
            assert(r1cs::all_true(ids, run) == (r1cs::bit_value(ids[0], run) && r1cs::bit_value(
                ids[1],
                run,
            ) && r1cs::bit_value(ids[2], run)));
        }
        let (min_start, max_end) = check_actions(cs, ext, t_min, t_max, &mut checks)?;
        let ghost cs4 = *cs;
        let total_weight = check_goods(cs, ext, &mut checks)?;
        let ghost cs5 = *cs;
        let ghost parts = checks@;
        let loaded = gadgets::is_leq(cs, &total_weight, capacity, SUM_BITS)?;
        let anchor = r1cs::fp_from_bit(cs, &loaded);

        // no overlap with the order before
        let ghost cs6 = *cs;
        let adjacent = check_adjacency(cs, z_in, ext, &min_start, &anchor)?;
        let ghost cs7 = *cs;
        let ghost rest = seq![loaded, adjacent];
        checks.push(loaded);
        checks.push(adjacent);
        proof {
            assert(checks@ == parts + rest);
            assert(checks@[parts.len() as int] == loaded);
            assert forall|run| #[trigger] r1cs::live(*cs, run) implies r1cs::all_true(checks@, run)
                == quality::order_passes(r1cs::values(z_in@, run), r1cs::values(ext@, run)) by {
                lemma_all_true(parts, rest, run);
                assert(r1cs::all_true(rest, run) == (r1cs::bit_value(rest[0], run)
                    && r1cs::bit_value(rest[1], run)));
            }
        }

        // fingerprint over the fields in their canonical order
        let (phi, pw) = fingerprint(cs, ext, &z_in[1], &z_in[2], r);

        // the running verdict
        let ghost cs8 = *cs;
        let all_local = r1cs::bit_kary_and(cs, &checks)?;
        let ghost cs9 = *cs;
        let valid_in = fp_to_bool(cs, valid_in, &anchor)?;
        let ghost cs10 = *cs;
        let valid_out = r1cs::bit_and(cs, &valid_in, &all_local);
        proof {
            assert forall|w: Seq<nat>|
                r1cs::live(cs0, Some(w)) && quality::order_fits(
                    r1cs::values(z_in@, Some(w)),
                    r1cs::values(ext@, Some(w)),
                ) implies #[trigger] r1cs::extends(cs0, *cs, w) by {
                let z = r1cs::values(z_in@, Some(w));
                let x = r1cs::values(ext@, Some(w));
                assert(r1cs::extends(cs0, cs3, w));
                assert forall|v: Seq<nat>|
                    r1cs::live(cs3, Some(v)) && #[trigger] r1cs::same_values(
                        cs0,
                        w,
                        v,
                    ) implies r1cs::extends(cs3, cs4, v) by {
                    r1cs::lemma_same_all(cs0, w, v, z_in@);
                    r1cs::lemma_same_all(cs0, w, v, ext@);
                    assert(r1cs::values(z_in@, Some(v))[7] == z[7]);
                    assert(r1cs::values(z_in@, Some(v))[8] == z[8]);
                }
                r1cs::lemma_extends(cs0, cs3, cs4, w);
                r1cs::lemma_extends_derives(cs0, cs4, cs5, w);
                assert forall|v: Seq<nat>|
                    r1cs::live(cs5, Some(v)) && #[trigger] r1cs::same_values(
                        cs0,
                        w,
                        v,
                    ) implies r1cs::extends(cs5, cs6, v) by {
                    r1cs::lemma_same_all(cs0, w, v, ext@);
                    assert(r1cs::values(ext@, Some(v))[2] == x[2]);
                }
                r1cs::lemma_extends(cs0, cs5, cs6, w);
                assert forall|v: Seq<nat>|
                    r1cs::live(cs6, Some(v)) && #[trigger] r1cs::same_values(
                        cs0,
                        w,
                        v,
                    ) implies r1cs::extends(cs6, cs7, v) by {
                    r1cs::lemma_same_all(cs0, w, v, z_in@);
                    r1cs::lemma_same_all(cs0, w, v, ext@);
                }
                r1cs::lemma_extends(cs0, cs6, cs7, w);
                r1cs::lemma_extends_derives(cs0, cs7, cs8, w);
                r1cs::lemma_extends_derives(cs0, cs8, cs9, w);
                assert forall|v: Seq<nat>|
                    r1cs::live(cs9, Some(v)) && #[trigger] r1cs::same_values(
                        cs0,
                        w,
                        v,
                    ) implies r1cs::extends(cs9, cs10, v) by {
                    r1cs::lemma_same_all(cs0, w, v, z_in@);
                    assert(r1cs::values(z_in@, Some(v))[0] == z[0]);
                }
                r1cs::lemma_extends(cs0, cs9, cs10, w);
                r1cs::lemma_extends_derives(cs0, cs10, *cs, w);
            }
        }

        let mut z_out: Vec<FpVar> = Vec::new();
        z_out.push(r1cs::fp_from_bit(cs, &valid_out));
        z_out.push(phi);
        z_out.push(pw);
        z_out.push(r.clone());
        z_out.push(vehicle_id.clone());
        z_out.push(max_end);
        z_out.push(r1cs::fp_constant(&Fr::one()));
        z_out.push(t_min.clone());
        z_out.push(t_max.clone());
        Ok(z_out)
    }
}

/// One order in its flat form.
#[derive(Clone, Debug)]
pub struct OrderInputs<F>(pub Vec<F>);

impl Default for OrderInputs<Fr> {
    /// Zero for every field.
    fn default() -> (r: Self)
        ensures
            field::all_wf(r.0@),
            field::integers(r.0@) == Seq::new(FIELDS_PER_ORDER as nat, |i: int| 0nat),
            r.0@.len() == 83,
            forall|i: int| 0 <= i < 83 ==> (#[trigger] r.0@[i])@ == 0,
    {
        let mut v: Vec<Fr> = Vec::new();
        let mut i: usize = 0;
        while i < FIELDS_PER_ORDER
            invariant
                i <= FIELDS_PER_ORDER,
                v@.len() == i,
                forall|j: int| 0 <= j < i ==> (#[trigger] v@[j]).wf() && v@[j]@ == 0,
            decreases FIELDS_PER_ORDER - i,
        {
            v.push(Fr::zero());
            i = i + 1;
        }
        OrderInputs(v)
    }
}

/// One order in its flat form, in a circuit.
#[derive(Clone, Debug)]
pub struct OrderInputsVar(pub Vec<FpVar>);

impl OrderInputsVar {
    /// Allocates every field of the order in the given mode. An error in place of the order is
    /// passed on.
    pub fn new_variable(
        cs: &mut ConstraintSystem,
        order: Result<OrderInputs<Fr>, SynthesisError>,
        mode: AllocationMode,
    ) -> (r: Result<OrderInputsVar, SynthesisError>)
        requires
            r1cs::intact(*old(cs)),
            order matches Ok(o) ==> field::all_wf(o.0@),
        ensures
            order matches Err(e) ==> r is Err && r->Err_0 == e && *final(cs) == *old(cs),
            order is Ok ==> (r is Ok <==> r1cs::present(*old(cs)) || mode is Constant
                || order->Ok_0.0@.len() == 0),
            order is Ok && r is Err ==> r->Err_0 == SynthesisError::MissingCS && *final(cs) == *old(
                cs,
            ),
            r1cs::derives(*old(cs), *final(cs)),
            r is Ok ==> r->Ok_0.0@.len() == order->Ok_0.0@.len(),
            r is Ok ==> r1cs::owns_all(*final(cs), r->Ok_0.0@),
            r is Ok && r1cs::live(*final(cs), None) ==> r1cs::values(r->Ok_0.0@, None)
                == field::integers(order->Ok_0.0@),
            r is Ok ==> forall|i: int|
                0 <= i < r->Ok_0.0@.len() ==> r1cs::allocated_as(#[trigger] r->Ok_0.0@[i]) == mode,
            r is Ok ==> forall|i: int|
                0 <= i < r->Ok_0.0@.len() ==> r1cs::fp_is_constant(#[trigger] r->Ok_0.0@[i]) == (
                mode is Constant),
            r is Ok && !(mode is Constant) ==> forall|w: Seq<nat>, ys: Seq<nat>|
                r1cs::live(*old(cs), Some(w)) && ys.len() == r->Ok_0.0@.len()
                    && field::all_elements(ys) ==> #[trigger] r1cs::extends_with_values(
                    *old(cs),
                    *final(cs),
                    w,
                    r->Ok_0.0@,
                    ys,
                ),
            r is Ok ==> r1cs::inputs(*final(cs)) == r1cs::inputs(*old(cs)) + (if mode is Input {
                r->Ok_0.0@.len()
            } else {
                0
            }),
            r is Ok ==> r1cs::witnesses(*final(cs)) == r1cs::witnesses(*old(cs)) + (
            if mode is Witness {
                r->Ok_0.0@.len()
            } else {
                0
            }),
            r1cs::constraints(*final(cs)) == r1cs::constraints(*old(cs)),
            r is Ok && mode is Constant ==> forall|run| #[trigger]
                r1cs::values(r->Ok_0.0@, run) == field::integers(order->Ok_0.0@),
    {
        proof {
            r1cs::lemma_derives_same(*cs);
        }
        let values = order?;
        let vars = r1cs::fp_new_variables(cs, &values.0, mode)?;
        Ok(OrderInputsVar(vars))
    }
}

} // verus!
