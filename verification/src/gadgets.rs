//! Comparison gadgets, built from equality, truth values and explicit decomposition
//! into bits.
use vstd::prelude::*;
use vstd::arithmetic::div_mod::*;
use vstd::arithmetic::mul::*;
use vstd::arithmetic::power2::*;
use ark_relations::r1cs::SynthesisError;
use crate::field;
use crate::field::Fr;
use crate::r1cs;
use crate::r1cs::{Boolean, ConstraintSystem, FpVar};

verus! {

/// The field element `b - a + 2^n`, from whose bits `is_leq` reads its answer.
pub open spec fn leq_sum(a: nat, b: nat, n: nat) -> nat {
    ((b - a + pow2(n)) % (field::modulus() as int)) as nat
}

/// What `is_leq` answers on the field elements `a` and `b`: bit `n` of `leq_sum`.
#[verifier::opaque]
pub open spec fn leq_bit(a: nat, b: nat, n: nat) -> bool {
    (leq_sum(a, b, n) / pow2(n)) % 2 == 1
}

/// What `is_leq` enforces of the field elements `a` and `b`: that `leq_sum` has no more
/// than `n + 1` bits.
#[verifier::opaque]
pub open spec fn leq_fits(a: nat, b: nat, n: nat) -> bool {
    leq_sum(a, b, n) < pow2(n + 1)
}

/// The integer whose binary digits, the least significant first, are the first `k` of `bits`.
pub open spec fn binary(bits: Seq<bool>, k: nat) -> nat
    decreases k,
{
    if k == 0 {
        0
    } else {
        binary(bits, (k - 1) as nat) + (if bits[k - 1] {
            pow2((k - 1) as nat)
        } else {
            0
        })
    }
}

/// `bit` is the last of `n + 1` binary digits of an integer that stands for the field
/// element `s`.
pub open spec fn is_top_digit(s: nat, n: nat, bit: bool) -> bool {
    exists|bits: Seq<bool>|
        bits.len() == n + 1 && #[trigger] binary(bits, n + 1) % field::modulus() == s && bits[n as int]
            == bit
}

/// Boolean: `x == 0`.
///
/// A variable that was made without a value is an error in a system that holds an assignment.
pub fn is_zero(cs: &mut ConstraintSystem, x: &FpVar) -> (r: Result<Boolean, SynthesisError>)
    requires
        r1cs::owns_fp(*old(cs), *x) || r1cs::valueless(*old(cs), *x),
    ensures
        r1cs::owns_fp(*old(cs), *x) ==> r is Ok,
        r1cs::valueless(*old(cs), *x) ==> r is Err && r->Err_0
            == SynthesisError::AssignmentMissing,
        r is Err ==> r1cs::stalls(*old(cs), *final(cs)),
        !r1cs::present(*old(cs)) ==> *final(cs) == *old(cs),
        r is Ok ==> r1cs::derives(*old(cs), *final(cs)),
        r is Ok ==> r1cs::owns_bit(*final(cs), r->Ok_0),
        r is Ok ==> r1cs::bit_is_constant(r->Ok_0) == r1cs::fp_is_constant(*x),
        r is Ok && r1cs::fp_is_constant(*x) ==> r1cs::adds(*old(cs), *final(cs), 0, 0),
        r is Ok && !r1cs::fp_is_constant(*x) ==> r1cs::adds(*old(cs), *final(cs), 2, 2),
        r is Ok ==> forall|run| #[trigger]
            r1cs::live(*final(cs), run) ==> r1cs::bit_value(r->Ok_0, run) == (r1cs::fp_value(*x, run)
                == 0),
{
    r1cs::fp_is_eq(cs, x, &r1cs::fp_constant(&Fr::zero()))
}

/// Boolean: `x != 0`.
///
/// A variable that was made without a value is an error in a system that holds an assignment.
pub fn is_nonzero(cs: &mut ConstraintSystem, x: &FpVar) -> (r: Result<Boolean, SynthesisError>)
    requires
        r1cs::owns_fp(*old(cs), *x) || r1cs::valueless(*old(cs), *x),
    ensures
        r1cs::owns_fp(*old(cs), *x) ==> r is Ok,
        r1cs::valueless(*old(cs), *x) ==> r is Err && r->Err_0
            == SynthesisError::AssignmentMissing,
        r is Err ==> r1cs::stalls(*old(cs), *final(cs)),
        !r1cs::present(*old(cs)) ==> *final(cs) == *old(cs),
        r is Ok ==> r1cs::derives(*old(cs), *final(cs)),
        r is Ok ==> r1cs::owns_bit(*final(cs), r->Ok_0),
        r is Ok ==> r1cs::bit_is_constant(r->Ok_0) == r1cs::fp_is_constant(*x),
        r is Ok && r1cs::fp_is_constant(*x) ==> r1cs::adds(*old(cs), *final(cs), 0, 0),
        r is Ok && !r1cs::fp_is_constant(*x) ==> r1cs::adds(*old(cs), *final(cs), 2, 2),
        r is Ok ==> forall|run| #[trigger]
            r1cs::live(*final(cs), run) ==> r1cs::bit_value(r->Ok_0, run) == (r1cs::fp_value(*x, run)
                != 0),
{
    let zero = is_zero(cs, x)?;
    Ok(r1cs::bit_not(cs, &zero))
}

impl Fr {
    /// `2^n` as a field element.
    pub fn pow2(n: usize) -> (r: Fr)
        ensures
            r.wf(),
            r@ == pow2(n as nat) % field::modulus(),
    {
        let mut acc = Fr::one();
        let two = field::fr_from_u64(2);
        proof {
            lemma2_to64();
        }
        for i in 0..n
            invariant
                two.wf(),
                two@ == 2,
                acc.wf(),
                acc@ == pow2(i as nat) % field::modulus(),
        {
            proof {
                lemma_pow2_unfold((i + 1) as nat);
                lemma_mul_mod_noop_left(pow2(i as nat) as int, 2, field::modulus() as int);
            }
            acc = field::fr_mul(&acc, &two);
        }
        acc
    }
}

/// The values of `bits` in a run.
pub open spec fn readings(bits: Seq<Boolean>, run: Option<Seq<nat>>) -> Seq<bool> {
    Seq::new(bits.len(), |i: int| r1cs::bit_value(bits[i], run))
}

/// `k` binary digits make less than `2^k`.
proof fn lemma_binary_bound(bits: Seq<bool>, k: nat)
    ensures
        binary(bits, k) < pow2(k),
    decreases k,
{
    lemma2_to64();
    if k > 0 {
        lemma_binary_bound(bits, (k - 1) as nat);
        lemma_pow2_unfold(k);
    }
}

/// The first `k` digits of `s` make `s` modulo `2^k`.
proof fn lemma_binary_of(s: nat, bits: Seq<bool>, k: nat)
    requires
        forall|j: int| 0 <= j < k ==> bits[j] == ((s / pow2(j as nat)) % 2 == 1),
    ensures
        binary(bits, k) == s % pow2(k),
    decreases k,
{
    lemma2_to64();
    if k > 0 {
        let h = (k - 1) as nat;
        let half = pow2(h);
        lemma_binary_of(s, bits, h);
        lemma_pow2_pos(h);
        lemma_pow2_unfold(k);
        lemma_mod_breakdown(s as int, half as int, 2);
        assert(half * ((s / half) % 2) == if bits[h as int] {
            half
        } else {
            0
        }) by (nonlinear_arith)
            requires
                bits[h as int] == ((s / half) % 2 == 1),
                half > 0,
        ;
    }
}

/// The last of `n + 1` digits is bit `n` of the integer they make.
proof fn lemma_top_digit(bits: Seq<bool>, n: nat)
    ensures
        bits[n as int] == ((binary(bits, n + 1) / pow2(n)) % 2 == 1),
{
    let low = binary(bits, n);
    let d: nat = if bits[n as int] {
        1
    } else {
        0
    };
    lemma_binary_bound(bits, n);
    lemma_pow2_pos(n);
    assert(binary(bits, n + 1) == pow2(n) * d + low) by (nonlinear_arith)
        requires
            binary(bits, n + 1) == low + (if bits[n as int] {
                pow2(n)
            } else {
                0
            }),
            d == (if bits[n as int] {
                1nat
            } else {
                0nat
            }),
    ;
    lemma_fundamental_div_mod_converse(binary(bits, n + 1) as int, pow2(n) as int, d as int, low as int);
}

/// The order of the field has more than 253 bits.
pub proof fn lemma_modulus_bits()
    ensures
        pow2(253) < field::modulus(),
        field::modulus() < pow2(254),
{
    lemma2_to64();
    lemma2_to64_rest();
    lemma_pow2_adds(64, 64);
    lemma_pow2_adds(128, 64);
    lemma_pow2_adds(192, 61);
    lemma_pow2_adds(253, 1);
}

/// Up to 253 digits determine the field element they stand for, and are determined by it.
proof fn lemma_top_digit_unique(s: nat, n: nat, bit: bool)
    requires
        n <= 252,
        is_top_digit(s, n, bit),
    ensures
        s < pow2(n + 1),
        bit == ((s / pow2(n)) % 2 == 1),
{
    let bits = choose|bits: Seq<bool>|
        bits.len() == n + 1 && #[trigger] binary(bits, n + 1) % field::modulus() == s && bits[n as int]
            == bit;
    lemma_binary_bound(bits, n + 1);
    lemma_modulus_bits();
    if n < 252 {
        lemma_pow2_strictly_increases(n + 1, 253);
    }
    lemma_small_mod(binary(bits, n + 1), field::modulus());
    lemma_top_digit(bits, n);
}

/// `a` and `b` can be used with `cs`, an intact system.
pub open spec fn usable(cs: ConstraintSystem, a: FpVar, b: FpVar) -> bool {
    r1cs::intact(cs) && r1cs::owns_fp(cs, a) && r1cs::owns_fp(cs, b)
}

/// The assignment `w` of `before` can be completed to one of `after` in which `bits` are
/// `digits`.
#[verifier::opaque]
spec fn reaches(
    before: ConstraintSystem,
    after: ConstraintSystem,
    w: Seq<nat>,
    bits: Seq<Boolean>,
    digits: Seq<bool>,
) -> bool {
    exists|v: Seq<nat>| #[trigger]
        r1cs::live(after, Some(v)) && r1cs::same_values(before, w, v) && readings(bits, Some(v))
            == digits
}

/// One more bit can take either value.
proof fn lemma_reaches_bit(
    a: ConstraintSystem,
    b: ConstraintSystem,
    c: ConstraintSystem,
    w: Seq<nat>,
    bits: Seq<Boolean>,
    bit: Boolean,
    digits: Seq<bool>,
)
    requires
        r1cs::grows(a, b),
        r1cs::owns_bits(b, bits),
        digits.len() == bits.len() + 1,
        reaches(a, b, w, bits, digits.drop_last()),
        forall|v: Seq<nat>, x: bool|
            r1cs::live(b, Some(v)) ==> #[trigger] r1cs::extends_with_bit(b, c, v, bit, x),
    ensures
        reaches(a, c, w, bits.push(bit), digits),
{
    reveal(reaches);
    reveal(r1cs::same_values);
    reveal(r1cs::extends_with_bit);
    let v = choose|v: Seq<nat>| #[trigger]
        r1cs::live(b, Some(v)) && r1cs::same_values(a, w, v) && readings(bits, Some(v))
            == digits.drop_last();
    assert(r1cs::extends_with_bit(b, c, v, bit, digits.last()));
    let u = choose|u: Seq<nat>| #[trigger]
        r1cs::live(c, Some(u)) && r1cs::same_values(b, v, u) && r1cs::bit_value(bit, Some(u))
            == digits.last();
    assert forall|x: FpVar| #[trigger] r1cs::owns_fp(a, x) implies r1cs::fp_value(x, Some(w))
        == r1cs::fp_value(x, Some(u)) by {
        assert(r1cs::owns_fp(b, x));
    }
    assert forall|x: Boolean| #[trigger] r1cs::owns_bit(a, x) implies r1cs::bit_value(x, Some(w))
        == r1cs::bit_value(x, Some(u)) by {
        assert(r1cs::owns_bit(b, x));
    }
    assert(r1cs::same_values(a, w, u));
    assert forall|i: int| 0 <= i < digits.len() implies readings(bits.push(bit), Some(u))[i]
        == digits[i] by {
        if i < bits.len() {
            assert(r1cs::owns_bit(b, bits[i]));
            assert(readings(bits, Some(v))[i] == digits.drop_last()[i]);
        }
    }
    assert(readings(bits.push(bit), Some(u)) =~= digits);
}

/// The digits of the sum complete an assignment, where the sum has no more than `n + 1` bits.
///
/// `a` is the system before, `b` that with the bits, `c` that with the sum of the bits, and `d`
/// that with the constraint that the sum of the bits is `s`.
proof fn lemma_leq_extends(
    a: ConstraintSystem,
    b: ConstraintSystem,
    c: ConstraintSystem,
    d: ConstraintSystem,
    w: Seq<nat>,
    bits: Seq<Boolean>,
    acc: FpVar,
    s: FpVar,
    n: nat,
)
    requires
        r1cs::grows(a, b),
        r1cs::derives(b, c),
        r1cs::live(a, Some(w)),
        r1cs::owns_fp(a, s),
        r1cs::owns_bits(b, bits),
        bits.len() == n + 1,
        r1cs::fp_value(s, Some(w)) < pow2(n + 1),
        forall|digits: Seq<bool>|
            digits.len() == n + 1 ==> #[trigger] reaches(a, b, w, bits, digits),
        forall|run| #[trigger]
            r1cs::live(c, run) ==> r1cs::fp_value(acc, run) == binary(readings(bits, run), n + 1)
                % field::modulus(),
        forall|v: Seq<nat>|
            r1cs::live(c, Some(v)) && r1cs::fp_value(acc, Some(v)) == r1cs::fp_value(s, Some(v))
                ==> #[trigger] r1cs::extends(c, d, v),
    ensures
        r1cs::extends(a, d, w),
{
    reveal(reaches);
    let value = r1cs::fp_value(s, Some(w));
    let digits = Seq::new(n + 1, |j: int| (value / pow2(j as nat)) % 2 == 1);
    assert(reaches(a, b, w, bits, digits));
    let v = choose|v: Seq<nat>| #[trigger]
        r1cs::live(b, Some(v)) && r1cs::same_values(a, w, v) && readings(bits, Some(v)) == digits;
    lemma_binary_of(value, digits, n + 1);
    lemma_small_mod(value, pow2(n + 1));
    assert(value < field::modulus()) by {
        reveal(r1cs::fp_value);
    }
    lemma_small_mod(value, field::modulus());
    r1cs::lemma_same_fp(a, w, v, s);
    assert(r1cs::extends(b, c, v));
    assert forall|u: Seq<nat>|
        r1cs::live(c, Some(u)) && #[trigger] r1cs::same_values(b, v, u) implies r1cs::extends(
        c,
        d,
        u,
    ) by {
        r1cs::lemma_same_fp(b, v, u, s);
        assert(readings(bits, Some(u)) =~= readings(bits, Some(v))) by {
            reveal(r1cs::same_values);
            assert forall|i: int| 0 <= i < bits.len() implies readings(bits, Some(u))[i]
                == readings(bits, Some(v))[i] by {
                assert(r1cs::owns_bit(b, bits[i]));
            }
        }
    }
    r1cs::lemma_extends(b, c, d, v);
    // the completion by way of `v`
    reveal(r1cs::extends);
    reveal(r1cs::same_values);
    let t = choose|t: Seq<nat>| #[trigger] r1cs::live(d, Some(t)) && r1cs::same_values(b, v, t);
    assert forall|x: FpVar| #[trigger] r1cs::owns_fp(a, x) implies r1cs::fp_value(x, Some(w))
        == r1cs::fp_value(x, Some(t)) by {
        assert(r1cs::owns_fp(b, x));
    }
    assert forall|x: Boolean| #[trigger] r1cs::owns_bit(a, x) implies r1cs::bit_value(x, Some(w))
        == r1cs::bit_value(x, Some(t)) by {
        assert(r1cs::owns_bit(b, x));
    }
    assert(r1cs::same_values(a, w, t));
}

/// Boolean: `a <= b`, provided that both are below `2^n_bits`.
///
/// With `s = b - a + 2^n`: if `a <= b`, then `s` lies in `[2^n, 2^(n+1))` and bit `n` is
/// one; if `a > b`, then `s` lies in `(0, 2^n)` and bit `n` is zero. The decomposition
/// of `s` into `n + 1` bits is enforced, and with it that `b - a` lies from `-2^n` up to
/// `2^n - 1`. The bound on `a` and `b` themselves is the caller's business.
///
/// A variable that lacks its value in a system that holds an assignment is an error; the first
/// bit is then counted, but has no value and no constraint.
pub fn is_leq(cs: &mut ConstraintSystem, a: &FpVar, b: &FpVar, n_bits: usize) -> (r: Result<
    Boolean,
    SynthesisError,
>)
    requires
        usable(*old(cs), *a, *b) || r1cs::one_lacks(*old(cs), *a, *b),
        n_bits < usize::MAX,
    ensures
        usable(*old(cs), *a, *b) ==> (r is Ok <==> r1cs::present(*old(cs))),
        usable(*old(cs), *a, *b) && r is Err ==> r->Err_0 == SynthesisError::MissingCS,
        r1cs::one_lacks(*old(cs), *a, *b) ==> r is Err && r->Err_0
            == SynthesisError::AssignmentMissing,
        r is Err && r1cs::present(*old(cs)) ==> r1cs::stalls(*old(cs), *final(cs)),
        !r1cs::present(*old(cs)) ==> *final(cs) == *old(cs),
        r is Ok ==> r1cs::adds(*old(cs), *final(cs), n_bits as nat + 1, n_bits as nat + 2),
        r is Ok ==> r1cs::grows(*old(cs), *final(cs)),
        r is Ok ==> r1cs::owns_bit(*final(cs), r->Ok_0) && !r1cs::bit_is_constant(r->Ok_0),
        r is Ok ==> r1cs::satisfied(*final(cs)) == r1cs::narrowed(
            r1cs::satisfied(*old(cs)),
            leq_fits(r1cs::fp_value(*a, None), r1cs::fp_value(*b, None), n_bits as nat),
        ),
        r is Ok && r1cs::satisfied(*final(cs)) is Some ==> r1cs::live(*final(cs), None),
        r is Ok ==> forall|w: Seq<nat>|
            r1cs::live(*old(cs), Some(w)) && leq_fits(
                r1cs::fp_value(*a, Some(w)),
                r1cs::fp_value(*b, Some(w)),
                n_bits as nat,
            ) ==> #[trigger] r1cs::extends(*old(cs), *final(cs), w),
        r is Ok && r1cs::live(*final(cs), None) ==> r1cs::bit_value(r->Ok_0, None) == leq_bit(
            r1cs::fp_value(*a, None),
            r1cs::fp_value(*b, None),
            n_bits as nat,
        ),
        r is Ok ==> forall|w: Seq<nat>| #[trigger]
            r1cs::live(*final(cs), Some(w)) ==> is_top_digit(
                leq_sum(r1cs::fp_value(*a, Some(w)), r1cs::fp_value(*b, Some(w)), n_bits as nat),
                n_bits as nat,
                r1cs::bit_value(r->Ok_0, Some(w)),
            ),
        r is Ok && n_bits <= 252 ==> forall|w: Seq<nat>| #[trigger]
            r1cs::live(*final(cs), Some(w)) ==> leq_fits(
                r1cs::fp_value(*a, Some(w)),
                r1cs::fp_value(*b, Some(w)),
                n_bits as nat,
            ),
        r is Ok && n_bits <= 252 ==> forall|run| #[trigger]
            r1cs::live(*final(cs), run) ==> r1cs::bit_value(r->Ok_0, run) == leq_bit(
                r1cs::fp_value(*a, run),
                r1cs::fp_value(*b, run),
                n_bits as nat,
            ),
{
    reveal(leq_bit);
    reveal(leq_fits);
    reveal(r1cs::fp_value);
    let ghost cs0 = *cs;
    let ghost n = n_bits as nat;
    let ghost lacking = r1cs::one_lacks(cs0, *a, *b);
    let two_n = r1cs::fp_constant(&Fr::pow2(n_bits));
    let d = r1cs::fp_sub(cs, b, a);
    let s = r1cs::fp_add(cs, &d, &two_n); // = b - a + 2^n
    proof {
        assert forall|run| #[trigger] r1cs::live(*cs, run) && !lacking implies r1cs::fp_value(s, run)
            == leq_sum(r1cs::fp_value(*a, run), r1cs::fp_value(*b, run), n) by {
            lemma_add_mod_noop(
                r1cs::fp_value(*b, run) - r1cs::fp_value(*a, run),
                pow2(n) as int,
                field::modulus() as int,
            );
        }
    }

    // Witness the (n+1)-bit decomposition of s.
    let s_val: Result<Fr, SynthesisError> = r1cs::fp_read(cs, &s);
    let mut bits: Vec<Boolean> = Vec::new();
    let mut i: usize = 0;
    proof {
        assert forall|w: Seq<nat>, digits: Seq<bool>|
            r1cs::live(cs0, Some(w)) && digits.len() == 0 implies #[trigger] reaches(
            cs0,
            *cs,
            w,
            bits@,
            digits,
        ) by {
            reveal(reaches);
            reveal(r1cs::same_values);
            assert(readings(bits@, Some(w)) =~= digits);
        }
    }
    while i <= n_bits
        invariant
            i <= n_bits + 1,
            n_bits < usize::MAX,
            cs0 == *old(cs),
            lacking == r1cs::one_lacks(cs0, *a, *b),
            i == 0 ==> *cs == cs0,
            lacking ==> i == 0 && *cs == cs0 && s_val is Err && !usable(cs0, *a, *b),
            !lacking ==> r1cs::intact(*cs),
            i > 0 ==> r1cs::present(cs0),
            r1cs::grows(cs0, *cs),
            r1cs::satisfied(*cs) == r1cs::satisfied(cs0),
            r1cs::adds(cs0, *cs, i as nat, i as nat),
            !lacking ==> r1cs::owns_fp(cs0, s) && r1cs::owns_fp(*cs, s),
            !lacking && s_val is Err ==> !r1cs::live(*cs, None),
            !lacking && s_val is Ok ==> s_val->Ok_0@ == r1cs::fp_value(s, None),
            bits.len() == i,
            r1cs::owns_bits(*cs, bits@),
            forall|j: int| 0 <= j < i ==> !r1cs::bit_is_constant(#[trigger] bits[j]),
            forall|w: Seq<nat>, digits: Seq<bool>|
                r1cs::live(cs0, Some(w)) && digits.len() == i ==> #[trigger] reaches(
                    cs0,
                    *cs,
                    w,
                    bits@,
                    digits,
                ),
            r1cs::live(*cs, None) ==> forall|j: int|
                0 <= j < i ==> r1cs::bit_value(#[trigger] bits[j], None) == ((r1cs::fp_value(s, None)
                    / pow2(j as nat)) % 2 == 1),
        decreases n_bits + 1 - i,
    {
        let value: Result<bool, SynthesisError> = match s_val {
            Ok(v) => Ok(field::fr_bit(&v, i)),
            Err(_) => Err(SynthesisError::AssignmentMissing),
        };
        let ghost before = *cs;
        let ghost shorter = bits@;
        let bit = r1cs::bit_new_witness(cs, value)?;
        bits.push(bit);
        proof {
            assert forall|w: Seq<nat>, digits: Seq<bool>|
                r1cs::live(cs0, Some(w)) && digits.len() == i + 1 implies #[trigger] reaches(
                cs0,
                *cs,
                w,
                bits@,
                digits,
            ) by {
                assert(reaches(cs0, before, w, shorter, digits.drop_last()));
                lemma_reaches_bit(cs0, before, *cs, w, shorter, bit, digits);
            }
        }
        i = i + 1;
    }
    let ghost cs_bits = *cs;
    proof {
        r1cs::lemma_derives_same(*cs);
    }

    // Enforce sum_i bit_i * 2^i == s: this is the range proof for s.
    let mut acc = r1cs::fp_constant(&Fr::zero());
    let mut coeff = Fr::one();
    proof {
        lemma2_to64();
    }
    let mut k: usize = 0;
    while k < bits.len()
        invariant
            k <= bits.len(),
            bits.len() == n_bits + 1,
            r1cs::intact(*cs),
            r1cs::grows(cs0, *cs),
            r1cs::satisfied(*cs) == r1cs::satisfied(cs0),
            r1cs::derives(cs_bits, *cs),
            r1cs::adds(cs_bits, *cs, 0, 0),
            r1cs::owns_fp(*cs, s),
            r1cs::owns_bits(*cs, bits@),
            forall|j: int| 0 <= j < bits.len() ==> !r1cs::bit_is_constant(#[trigger] bits[j]),
            coeff.wf(),
            coeff@ == pow2(k as nat) % field::modulus(),
            r1cs::owns_fp(*cs, acc),
            k > 0 ==> !r1cs::fp_is_constant(acc),
            forall|run| #[trigger]
                r1cs::live(*cs, run) ==> r1cs::fp_value(acc, run) == binary(
                    readings(bits@, run),
                    k as nat,
                ) % field::modulus(),
        decreases bits.len() - k,
    {
        reveal(r1cs::fp_value);
        let ghost before = *cs;
        assert(r1cs::owns_bit(*cs, bits[k as int]));
        let weight = r1cs::fp_constant(&coeff);
        let digit = r1cs::fp_from_bit(cs, &bits[k]);
        let term = r1cs::fp_mul(cs, &digit, &weight);
        acc = r1cs::fp_add(cs, &acc, &term);
        proof {
            let m = field::modulus() as int;
            assert forall|run| #[trigger] r1cs::live(*cs, run) implies r1cs::fp_value(acc, run)
                == binary(readings(bits@, run), (k + 1) as nat) % field::modulus() by {
                assert(r1cs::live(before, run));
                let low = binary(readings(bits@, run), k as nat) as int;
                let p = pow2(k as nat) as int;
                assert(readings(bits@, run)[k as int] == r1cs::bit_value(bits[k as int], run));
                if r1cs::bit_value(bits[k as int], run) {
                    lemma_mod_twice(p, m);
                    lemma_add_mod_noop(low, p, m);
                } else {
                    lemma_mod_twice(low, m);
                }
            }
            r1cs::lemma_derives(cs_bits, before, *cs);
            lemma_pow2_unfold((k + 1) as nat);
            lemma_mul_mod_noop_right(2, pow2(k as nat) as int, m);
        }
        coeff = field::fr_double(&coeff);
        k = k + 1;
    }
    let ghost cs1 = *cs;
    r1cs::fp_enforce_equal(cs, &acc, &s)?;
    proof {
        assert forall|w: Seq<nat>|
            r1cs::live(cs0, Some(w)) && leq_fits(
                r1cs::fp_value(*a, Some(w)),
                r1cs::fp_value(*b, Some(w)),
                n,
            ) implies #[trigger] r1cs::extends(cs0, *cs, w) by {
            lemma_leq_extends(cs0, cs_bits, cs1, *cs, w, bits@, acc, s, n);
        }
        assert forall|w: Seq<nat>| #[trigger] r1cs::live(*cs, Some(w)) implies is_top_digit(
            leq_sum(r1cs::fp_value(*a, Some(w)), r1cs::fp_value(*b, Some(w)), n),
            n,
            r1cs::bit_value(bits[n as int], Some(w)),
        ) by {
            let digits = readings(bits@, Some(w));
            assert(r1cs::live(cs1, Some(w)));
            assert(r1cs::live(cs0, Some(w)));
            assert(binary(digits, n + 1) % field::modulus() == r1cs::fp_value(s, Some(w)));
        }
        if n <= 252 {
            assert forall|w: Seq<nat>| #[trigger] r1cs::live(*cs, Some(w)) implies leq_fits(
                r1cs::fp_value(*a, Some(w)),
                r1cs::fp_value(*b, Some(w)),
                n,
            ) && r1cs::bit_value(bits[n as int], Some(w)) == leq_bit(
                r1cs::fp_value(*a, Some(w)),
                r1cs::fp_value(*b, Some(w)),
                n,
            ) by {
                lemma_top_digit_unique(
                    leq_sum(r1cs::fp_value(*a, Some(w)), r1cs::fp_value(*b, Some(w)), n),
                    n,
                    r1cs::bit_value(bits[n as int], Some(w)),
                );
            }
        }
        if r1cs::live(cs1, None) {
            let v = r1cs::fp_value(s, None);
            let digits = readings(bits@, None);
            lemma_binary_of(v, digits, n + 1);
            lemma_pow2_pos(n + 1);
            lemma_mod_decreases(v, pow2(n + 1));
            lemma_small_mod(binary(digits, n + 1), field::modulus());
            if v < pow2(n + 1) {
                lemma_small_mod(v, pow2(n + 1));
            } else {
                lemma_mod_bound(v as int, pow2(n + 1) as int);
            }
        }
    }
    proof {
        assert forall|run| #[trigger] r1cs::live(*cs, run) && n <= 252 implies r1cs::bit_value(
            bits[n as int],
            run,
        ) == leq_bit(r1cs::fp_value(*a, run), r1cs::fp_value(*b, run), n) by {
            match run {
                None => {},
                Some(w) => {},
            }
        }
    }
    Ok(bits.swap_remove(n_bits)) // bit n == (a <= b)
}

/// Boolean: `a < b`, provided that both are below `2^n_bits`.
pub fn is_lt(cs: &mut ConstraintSystem, a: &FpVar, b: &FpVar, n_bits: usize) -> (r: Result<
    Boolean,
    SynthesisError,
>)
    requires
        usable(*old(cs), *a, *b) || r1cs::one_lacks(*old(cs), *a, *b),
        n_bits < usize::MAX,
    ensures
        usable(*old(cs), *a, *b) ==> (r is Ok <==> r1cs::present(*old(cs))),
        usable(*old(cs), *a, *b) && r is Err ==> r->Err_0 == SynthesisError::MissingCS,
        r1cs::one_lacks(*old(cs), *a, *b) ==> r is Err && r->Err_0
            == SynthesisError::AssignmentMissing,
        r is Err && r1cs::present(*old(cs)) ==> r1cs::stalls(*old(cs), *final(cs)),
        !r1cs::present(*old(cs)) ==> *final(cs) == *old(cs),
        r is Ok ==> r1cs::adds(*old(cs), *final(cs), n_bits as nat + 1, n_bits as nat + 2),
        r is Ok ==> r1cs::grows(*old(cs), *final(cs)),
        r is Ok ==> r1cs::owns_bit(*final(cs), r->Ok_0) && !r1cs::bit_is_constant(r->Ok_0),
        r is Ok ==> r1cs::satisfied(*final(cs)) == r1cs::narrowed(
            r1cs::satisfied(*old(cs)),
            leq_fits(r1cs::fp_value(*b, None), r1cs::fp_value(*a, None), n_bits as nat),
        ),
        r is Ok && r1cs::satisfied(*final(cs)) is Some ==> r1cs::live(*final(cs), None),
        r is Ok ==> forall|w: Seq<nat>|
            r1cs::live(*old(cs), Some(w)) && leq_fits(
                r1cs::fp_value(*b, Some(w)),
                r1cs::fp_value(*a, Some(w)),
                n_bits as nat,
            ) ==> #[trigger] r1cs::extends(*old(cs), *final(cs), w),
        r is Ok && r1cs::live(*final(cs), None) ==> r1cs::bit_value(r->Ok_0, None) == !leq_bit(
            r1cs::fp_value(*b, None),
            r1cs::fp_value(*a, None),
            n_bits as nat,
        ),
        r is Ok ==> forall|w: Seq<nat>| #[trigger]
            r1cs::live(*final(cs), Some(w)) ==> is_top_digit(
                leq_sum(r1cs::fp_value(*b, Some(w)), r1cs::fp_value(*a, Some(w)), n_bits as nat),
                n_bits as nat,
                !r1cs::bit_value(r->Ok_0, Some(w)),
            ),
        r is Ok && n_bits <= 252 ==> forall|w: Seq<nat>| #[trigger]
            r1cs::live(*final(cs), Some(w)) ==> leq_fits(
                r1cs::fp_value(*b, Some(w)),
                r1cs::fp_value(*a, Some(w)),
                n_bits as nat,
            ),
        r is Ok && n_bits <= 252 ==> forall|run| #[trigger]
            r1cs::live(*final(cs), run) ==> r1cs::bit_value(r->Ok_0, run) == !leq_bit(
                r1cs::fp_value(*b, run),
                r1cs::fp_value(*a, run),
                n_bits as nat,
            ),
{
    // a < b  <=>  !(b <= a)
    let leq = is_leq(cs, b, a, n_bits)?;
    Ok(r1cs::bit_not(cs, &leq))
}

} // verus!
