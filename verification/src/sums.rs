//! What the additions and the scalar multiply-add leave in the limbs.
//!
//! Each operation of [`crate::uint::UnsignedInteger`] that changes limbs has
//! its result defined here as a function of the limbs it started from,
//! together with the laws that these results obey.

use crate::limbs::{
    fixed_limbs, high_part, is_normalized, lemma_fixed_limbs_mod, lemma_fixed_limbs_of_value,
    lemma_fixed_limbs_value, lemma_large_is_normalized, lemma_limbs_of, lemma_limbs_of_u64,
    lemma_normalized_is_canonical, lemma_normalized_lower_bound, lemma_value_bound,
    lemma_value_push, lemma_value_split, lemma_value_unique, lemma_weight,
    lemma_weight_monotonic, lemma_zero_is_empty, limb_base, limbs_of, limbs_value, low_part,
    weight, with_carry,
};
use crate::memory::Word;
use vstd::arithmetic::div_mod::{
    lemma_fundamental_div_mod, lemma_fundamental_div_mod_converse, lemma_small_mod,
};
use vstd::prelude::*;

verus! {

/// The limbs after adding the scalar `val` to `a`.
///
/// The sum is written into the limbs that `a` has; a carry out of the top
/// limb is appended. On the empty sequence the scalar itself is that carry.
pub open spec fn add_u64_limbs(a: Seq<Word>, val: u64) -> Seq<Word> {
    let sum: nat = limbs_value(a) + (val as nat);
    with_carry(fixed_limbs(sum, a.len()), sum / weight(a.len()))
}

/// The limbs after multiplying `a` by the scalar `factor` and adding the
/// scalar `addend`.
pub open spec fn mul_add_limbs(a: Seq<Word>, factor: u64, addend: u64) -> Seq<Word> {
    let v: nat = limbs_value(a) * (factor as nat) + (addend as nat);
    with_carry(fixed_limbs(v, a.len()), v / weight(a.len()))
}

/// The number of low limbs that adding `b` to `a` computes: one for each
/// limb of `b`, and one more for the last carry if `a` has a limb there.
pub open spec fn add_width(a: Seq<Word>, b: Seq<Word>) -> nat {
    if a.len() > b.len() {
        b.len() + 1
    } else {
        b.len()
    }
}

/// The number of limbs of the longer of `a` and `b`.
pub open spec fn longer_len(a: Seq<Word>, b: Seq<Word>) -> nat {
    if a.len() > b.len() {
        a.len()
    } else {
        b.len()
    }
}

/// The sum that adding `b` to `a` computes in the low limbs.
pub open spec fn add_low_sum(a: Seq<Word>, b: Seq<Word>) -> nat {
    limbs_value(low_part(a, add_width(a, b))) + limbs_value(b)
}

/// The limbs after adding `b` to `a`.
///
/// The low limbs hold the low sum. The limbs of `a` above them are kept as
/// they are, and a carry out of the low limbs is appended as a last limb.
pub open spec fn add_limbs(a: Seq<Word>, b: Seq<Word>) -> Seq<Word> {
    let width = add_width(a, b);
    let low = add_low_sum(a, b);
    with_carry(fixed_limbs(low, width) + high_part(a, width), low / weight(width))
}

/// True when adding `b` to `a` carries out of the low limbs while `a` has
/// limbs above them. The carry is then appended above those limbs and
/// not added into them, so the result does not stand for the sum.
pub open spec fn carry_escapes(a: Seq<Word>, b: Seq<Word>) -> bool {
    a.len() > add_width(a, b) && add_low_sum(a, b) >= weight(add_width(a, b))
}

/// Limbs `s` and a carry above them that together stand for `v` are the
/// fixed-width form of `v` with its carry.
pub proof fn lemma_carry_form(s: Seq<Word>, carry: nat, v: nat)
    requires
        limbs_value(s) + carry * weight(s.len()) == v,
    ensures
        v / weight(s.len()) == carry,
        v % weight(s.len()) == limbs_value(s),
        fixed_limbs(v, s.len()) == s,
{
    let w = weight(s.len());
    lemma_weight(s.len());
    lemma_value_bound(s);
    assert(carry * w == w * carry) by (nonlinear_arith);
    lemma_fundamental_div_mod_converse(v as int, w as int, carry as int, limbs_value(s) as int);
    lemma_fixed_limbs_mod(v, s.len());
    lemma_fixed_limbs_of_value(s);
}

/// Limbs `s` whose low part and carry stand for the low sum of `a` and `b`,
/// and whose high part is that of `a`, are the result of the addition
/// once the carry is appended.
pub proof fn lemma_add_from_parts(a: Seq<Word>, b: Seq<Word>, s: Seq<Word>, carry: nat)
    requires
        s.len() == longer_len(a, b),
        limbs_value(s.take(add_width(a, b) as int)) + carry * weight(add_width(a, b))
            == add_low_sum(a, b),
        s.skip(add_width(a, b) as int) == high_part(a, add_width(a, b)),
    ensures
        add_limbs(a, b) == with_carry(s, carry),
{
    let width = add_width(a, b);
    let low = s.take(width as int);
    lemma_carry_form(low, carry, add_low_sum(a, b));
    assert(low + s.skip(width as int) =~= s);
}

/// Limbs `s` that together with a carry above the low limbs stand for the
/// sum of `a` and `b`, and whose high part is that of `a`, are the result
/// of the addition once the carry is appended.
pub proof fn lemma_add_from_total(a: Seq<Word>, b: Seq<Word>, s: Seq<Word>, carry: nat)
    requires
        s.len() == longer_len(a, b),
        limbs_value(s) + carry * weight(add_width(a, b)) == limbs_value(a) + limbs_value(b),
        forall|j: int| add_width(a, b) <= j < a.len() ==> s[j] == a[j],
    ensures
        add_limbs(a, b) == with_carry(s, carry),
{
    let width = add_width(a, b);
    if a.len() > width {
        lemma_value_split(s, width);
        lemma_value_split(a, width);
        assert(s.skip(width as int) =~= a.skip(width as int));
    } else {
        assert(s.take(width as int) =~= s);
        assert(s.skip(width as int) =~= Seq::<Word>::empty());
    }
    lemma_add_from_parts(a, b, s, carry);
}

/// The low sum of an addition is below twice the weight of the low limbs,
/// so the carry out of them is zero or one.
pub proof fn lemma_add_carry_bound(a: Seq<Word>, b: Seq<Word>)
    ensures
        add_low_sum(a, b) < 2 * weight(add_width(a, b)),
        add_low_sum(a, b) / weight(add_width(a, b)) == (if add_low_sum(a, b) >= weight(
            add_width(a, b),
        ) {
            1nat
        } else {
            0nat
        }),
{
    let width = add_width(a, b);
    let low = add_low_sum(a, b);
    let w = weight(width);
    lemma_value_bound(low_part(a, width));
    lemma_value_bound(b);
    lemma_weight_monotonic(low_part(a, width).len(), width);
    lemma_weight_monotonic(b.len(), width);
    if low >= w {
        lemma_fundamental_div_mod_converse(low as int, w as int, 1, low - w);
    } else {
        lemma_fundamental_div_mod_converse(low as int, w as int, 0, low as int);
    }
}

/// The number of limbs after an addition: those of the longer operand, and
/// one more, a limb of one, for a carry out of the low limbs.
pub proof fn lemma_add_len(a: Seq<Word>, b: Seq<Word>)
    ensures
        add_limbs(a, b).len() == longer_len(a, b) + (if add_low_sum(a, b) >= weight(
            add_width(a, b),
        ) {
            1nat
        } else {
            0nat
        }),
        add_low_sum(a, b) >= weight(add_width(a, b)) ==> add_limbs(a, b).last() == Word(1),
{
    lemma_add_carry_bound(a, b);
}

/// Unless the carry escapes, the result of an addition stands for the sum
/// of the two numbers.
pub proof fn lemma_add_value(a: Seq<Word>, b: Seq<Word>)
    requires
        !carry_escapes(a, b),
    ensures
        limbs_value(add_limbs(a, b)) == limbs_value(a) + limbs_value(b),
{
    let width = add_width(a, b);
    let low = add_low_sum(a, b);
    let w = weight(width);
    let fixed = fixed_limbs(low, width);
    let body = fixed + high_part(a, width);
    lemma_weight(width);
    lemma_add_carry_bound(a, b);
    lemma_fixed_limbs_value(low, width);
    lemma_fundamental_div_mod(low as int, w as int);
    lemma_value_split(body, width);
    assert(body.take(width as int) =~= fixed);
    assert(body.skip(width as int) =~= high_part(a, width));
    if a.len() > width {
        lemma_value_split(a, width);
    } else {
        assert(w * limbs_value(Seq::<Word>::empty()) == 0) by (nonlinear_arith)
            requires
                limbs_value(Seq::<Word>::empty()) == 0,
        ;
        if low >= w {
            lemma_value_push(body, Word(1));
        }
    }
}

/// When the carry escapes, the result of an addition does not stand for
/// the sum: the carry is counted at the top of the longer operand instead
/// of just above the low limbs.
pub proof fn lemma_add_value_escaped(a: Seq<Word>, b: Seq<Word>)
    requires
        carry_escapes(a, b),
    ensures
        limbs_value(add_limbs(a, b)) + weight(add_width(a, b)) == limbs_value(a) + limbs_value(b)
            + weight(a.len()),
        limbs_value(add_limbs(a, b)) > limbs_value(a) + limbs_value(b),
{
    let width = add_width(a, b);
    let low = add_low_sum(a, b);
    let w = weight(width);
    let fixed = fixed_limbs(low, width);
    let body = fixed + high_part(a, width);
    lemma_weight(width);
    lemma_add_carry_bound(a, b);
    lemma_fixed_limbs_value(low, width);
    lemma_fundamental_div_mod(low as int, w as int);
    lemma_value_split(body, width);
    assert(body.take(width as int) =~= fixed);
    assert(body.skip(width as int) =~= high_part(a, width));
    lemma_value_split(a, width);
    lemma_value_push(body, Word(1));
    lemma_weight_monotonic(width, a.len());
}

/// Addition keeps limbs normalized.
pub proof fn lemma_add_normalized(a: Seq<Word>, b: Seq<Word>)
    requires
        is_normalized(a),
        is_normalized(b),
    ensures
        is_normalized(add_limbs(a, b)),
{
    let width = add_width(a, b);
    let low = add_low_sum(a, b);
    let fixed = fixed_limbs(low, width);
    lemma_add_carry_bound(a, b);
    if low < weight(width) {
        if a.len() > width {
            assert(add_limbs(a, b).last() == a.last());
        } else if width > 0 {
            lemma_fixed_limbs_value(low, width);
            lemma_small_mod(low, weight(width));
            if a.len() > b.len() {
                lemma_normalized_lower_bound(a);
            } else {
                lemma_normalized_lower_bound(b);
            }
            assert(add_limbs(a, b) =~= fixed);
            lemma_large_is_normalized(fixed);
        }
    }
}

/// Adding a scalar gives limbs that stand for the sum.
pub proof fn lemma_add_u64_value(a: Seq<Word>, val: u64)
    ensures
        limbs_value(add_u64_limbs(a, val)) == limbs_value(a) + val,
        limbs_value(a) + val < weight(a.len()) * limb_base(),
{
    lemma_scaled_value(a, 1, val);
    assert(limbs_value(a) * 1 == limbs_value(a)) by (nonlinear_arith);
}

/// The fixed-width form of `value(a) * factor + addend`, with its carry,
/// stands for that number, and the carry fits one limb.
proof fn lemma_scaled_value(a: Seq<Word>, factor: u64, addend: u64)
    ensures
        limbs_value(mul_add_limbs(a, factor, addend)) == limbs_value(a) * factor + addend,
        limbs_value(a) * factor + addend < weight(a.len()) * limb_base(),
        (limbs_value(a) * factor + addend) / (weight(a.len()) as int) < limb_base(),
{
    let v: nat = limbs_value(a) * (factor as nat) + (addend as nat);
    let w = weight(a.len());
    let fixed = fixed_limbs(v, a.len());
    lemma_weight(a.len());
    lemma_value_bound(a);
    assert(v < w * limb_base()) by (nonlinear_arith)
        requires
            v == limbs_value(a) * (factor as nat) + (addend as nat),
            limbs_value(a) < w,
            factor < limb_base(),
            addend < limb_base(),
    ;
    lemma_fixed_limbs_value(v, a.len());
    lemma_fundamental_div_mod(v as int, w as int);
    let carry = v / w;
    assert(carry < limb_base()) by (nonlinear_arith)
        requires
            v < w * limb_base(),
            v == w * carry + v % w,
            v % w >= 0,
            w > 0,
    ;
    if carry > 0 {
        lemma_value_push(fixed, Word(carry as u64));
        assert(carry * w == w * carry) by (nonlinear_arith);
    }
}

/// Multiplying normalized limbs by a scalar that is not zero, and adding
/// a scalar, gives the normalized form of the result.
pub proof fn lemma_mul_add_normalized(a: Seq<Word>, factor: u64, addend: u64)
    requires
        is_normalized(a),
        factor > 0,
    ensures
        mul_add_limbs(a, factor, addend) == limbs_of(
            (limbs_value(a) * factor + addend) as nat,
        ),
{
    let v: nat = limbs_value(a) * (factor as nat) + (addend as nat);
    let w = weight(a.len());
    let r = mul_add_limbs(a, factor, addend);
    lemma_scaled_value(a, factor, addend);
    if v / w == 0 {
        if a.len() > 0 {
            lemma_normalized_lower_bound(a);
            assert(v >= limbs_value(a)) by (nonlinear_arith)
                requires
                    v == limbs_value(a) * (factor as nat) + (addend as nat),
                    factor >= 1,
            ;
            lemma_large_is_normalized(r);
        }
    }
    lemma_normalized_is_canonical(r);
}

/// Adding a scalar to normalized limbs gives the normalized form of the
/// sum.
pub proof fn lemma_add_u64_normalized(a: Seq<Word>, val: u64)
    requires
        is_normalized(a),
    ensures
        add_u64_limbs(a, val) == limbs_of((limbs_value(a) + val) as nat),
{
    lemma_mul_add_normalized(a, 1, val);
    assert(limbs_value(a) * 1 == limbs_value(a)) by (nonlinear_arith);
}

/// Unless the carry escapes, an addition gives as many limbs as the longer
/// operand has, and one more exactly when the sum does not fit in those.
pub proof fn lemma_add_len_exact(a: Seq<Word>, b: Seq<Word>)
    requires
        !carry_escapes(a, b),
    ensures
        add_limbs(a, b).len() == longer_len(a, b) + (if limbs_value(a) + limbs_value(b) >= weight(
            longer_len(a, b),
        ) {
            1nat
        } else {
            0nat
        }),
{
    lemma_add_len(a, b);
    if a.len() > add_width(a, b) {
        lemma_add_value(a, b);
        lemma_value_bound(add_limbs(a, b));
    }
}

/// Addition is commutative: `a + b` and `b + a` are the same limbs,
/// whenever the carry escapes in neither.
pub proof fn lemma_add_commutative(a: Seq<Word>, b: Seq<Word>)
    requires
        !carry_escapes(a, b),
        !carry_escapes(b, a),
    ensures
        add_limbs(a, b) == add_limbs(b, a),
{
    lemma_add_len_exact(a, b);
    lemma_add_len_exact(b, a);
    lemma_add_value(a, b);
    lemma_add_value(b, a);
    lemma_value_unique(add_limbs(a, b), add_limbs(b, a));
}

/// Where the carry escapes one way, the two orders of an addition give
/// different limbs: the restriction of commutativity is needed.
pub proof fn lemma_add_escaped_differs(a: Seq<Word>, b: Seq<Word>)
    requires
        carry_escapes(a, b),
    ensures
        !carry_escapes(b, a),
        add_limbs(a, b) != add_limbs(b, a),
{
    lemma_add_value_escaped(a, b);
    lemma_add_value(b, a);
}

/// Adding zero changes nothing.
pub proof fn lemma_add_zero(a: Seq<Word>)
    ensures
        add_limbs(a, Seq::<Word>::empty()) == a,
        !carry_escapes(a, Seq::<Word>::empty()),
{
    let zero = Seq::<Word>::empty();
    assert(0 * weight(add_width(a, zero)) == 0) by (nonlinear_arith);
    lemma_add_from_total(a, zero, a, 0);
    if a.len() > 0 {
        lemma_value_bound(a.take(1));
    }
}

/// Adding to zero gives the addend.
pub proof fn lemma_zero_add(b: Seq<Word>)
    ensures
        add_limbs(Seq::<Word>::empty(), b) == b,
{
    let zero = Seq::<Word>::empty();
    assert(0 * weight(add_width(zero, b)) == 0) by (nonlinear_arith);
    lemma_add_from_total(zero, b, b, 0);
}

/// A sequence in which every limb has the largest value stands for one
/// less than the weight of its length.
pub proof fn lemma_all_max_value(limbs: Seq<Word>)
    requires
        forall|i: int| 0 <= i < limbs.len() ==> limbs[i].0 == u64::MAX,
    ensures
        limbs_value(limbs) + 1 == weight(limbs.len()),
    decreases limbs.len(),
{
    lemma_weight(0);
    if limbs.len() > 0 {
        let n = (limbs.len() - 1) as nat;
        lemma_all_max_value(limbs.drop_last());
        lemma_weight(n);
        assert((u64::MAX as nat) * weight(n) + weight(n) == weight(n) * limb_base())
            by (nonlinear_arith);
    }
}

/// Adding two numbers whose limbs all have the largest value carries all
/// the way: the result is one limb longer than the longer of the two, and
/// its top limb is one.
pub proof fn lemma_add_all_max(a: Seq<Word>, b: Seq<Word>)
    requires
        a.len() > 0,
        b.len() > 0,
        forall|i: int| 0 <= i < a.len() ==> a[i].0 == u64::MAX,
        forall|i: int| 0 <= i < b.len() ==> b[i].0 == u64::MAX,
    ensures
        add_limbs(a, b).len() == longer_len(a, b) + 1,
        add_limbs(a, b).last() == Word(1),
{
    let width = add_width(a, b);
    lemma_add_len(a, b);
    lemma_all_max_value(low_part(a, width));
    lemma_all_max_value(b);
    lemma_weight(0);
    lemma_weight_monotonic(1, low_part(a, width).len());
    lemma_weight_monotonic(1, b.len());
}

/// Adding two numbers of one length in which each pair of limbs at one
/// index overflows a limb gives one limb more, and that top limb is one.
pub proof fn lemma_add_all_carry(a: Seq<Word>, b: Seq<Word>)
    requires
        a.len() == b.len(),
        a.len() > 0,
        forall|i: int| 0 <= i < a.len() ==> a[i].0 + b[i].0 >= limb_base(),
    ensures
        add_limbs(a, b).len() == a.len() + 1,
        add_limbs(a, b).last() == Word(1),
{
    lemma_add_len(a, b);
    lemma_pairs_overflow(a, b);
}

/// Two sequences of one length in which each pair of limbs overflows a limb
/// stand for numbers whose sum reaches the weight of that length.
proof fn lemma_pairs_overflow(a: Seq<Word>, b: Seq<Word>)
    requires
        a.len() == b.len(),
        a.len() > 0,
        forall|i: int| 0 <= i < a.len() ==> a[i].0 + b[i].0 >= limb_base(),
    ensures
        limbs_value(a) + limbs_value(b) >= weight(a.len()),
{
    let n = (a.len() - 1) as nat;
    let w = weight(n);
    lemma_weight(n);
    assert((a.last().0 as nat) * w + (b.last().0 as nat) * w >= w * limb_base())
        by (nonlinear_arith)
        requires
            a.last().0 + b.last().0 >= limb_base(),
            w > 0,
    ;
}

/// Adding a scalar is adding the integer of at most one limb that stands
/// for it, whenever the carry of that addition does not escape.
pub proof fn lemma_add_u64_is_add(a: Seq<Word>, val: u64)
    requires
        !carry_escapes(a, limbs_of(val as nat)),
    ensures
        add_u64_limbs(a, val) == add_limbs(a, limbs_of(val as nat)),
{
    let b = limbs_of(val as nat);
    lemma_limbs_of_u64(val);
    lemma_limbs_of(val as nat);
    lemma_weight(0);
    if a.len() == 0 {
        lemma_zero_add(b);
        assert(val * weight(0) == val) by (nonlinear_arith)
            requires
                weight(0) == 1,
        ;
        lemma_carry_form(a, val as nat, val as nat);
    } else {
        let sum = (limbs_value(a) + val) as nat;
        let w = weight(a.len());
        lemma_add_len_exact(a, b);
        lemma_add_value(a, b);
        lemma_add_u64_value(a, val);
        lemma_weight(a.len());
        lemma_fundamental_div_mod(sum as int, w as int);
        assert(sum / w > 0 <==> sum >= w) by (nonlinear_arith)
            requires
                sum == w * (sum / w) + sum % w,
                0 <= sum % w < w,
                sum / w >= 0,
        ;
        lemma_value_unique(add_u64_limbs(a, val), add_limbs(a, b));
    }
}

/// One step in the life of an integer, as far as its limbs are concerned.
pub ghost enum Step {
    /// The integer is cleared: by `set_zero`, or by a `set` that found no
    /// room.
    Clear,
    /// The integer is set to a scalar.
    Assign(u64),
    /// An integer with the given limbs is added.
    Sum(Seq<Word>),
    /// A scalar is added.
    SumU64(u64),
}

/// Whether what the step adds, if it adds an integer, is normalized.
pub open spec fn adds_normalized(step: Step) -> bool {
    step matches Step::Sum(other) ==> is_normalized(other)
}

/// The limbs after one step.
pub open spec fn after_step(limbs: Seq<Word>, step: Step) -> Seq<Word> {
    match step {
        Step::Clear => Seq::empty(),
        Step::Assign(val) => limbs_of(val as nat),
        Step::Sum(other) => add_limbs(limbs, other),
        Step::SumU64(val) => add_u64_limbs(limbs, val),
    }
}

/// The limbs after a sequence of steps.
pub open spec fn after_steps(limbs: Seq<Word>, steps: Seq<Step>) -> Seq<Word>
    decreases steps.len(),
{
    if steps.len() == 0 {
        limbs
    } else {
        after_step(after_steps(limbs, steps.drop_last()), steps.last())
    }
}

/// Normalization is kept by every sequence of steps: starting from
/// normalized limbs and adding only normalized integers, the limbs never
/// end in a zero limb, and they stand for zero exactly when there are none.
pub proof fn lemma_steps_keep_normalized(limbs: Seq<Word>, steps: Seq<Step>)
    requires
        is_normalized(limbs),
        forall|i: int| 0 <= i < steps.len() ==> adds_normalized(#[trigger] steps[i]),
    ensures
        is_normalized(after_steps(limbs, steps)),
        limbs_value(after_steps(limbs, steps)) == 0 <==> after_steps(limbs, steps).len() == 0,
    decreases steps.len(),
{
    if steps.len() > 0 {
        let before = after_steps(limbs, steps.drop_last());
        let earlier = steps.drop_last();
        assert forall|i: int| 0 <= i < earlier.len() implies adds_normalized(
            #[trigger] earlier[i],
        ) by {
            assert(earlier[i] == steps[i]);
        }
        lemma_steps_keep_normalized(limbs, earlier);
        match steps.last() {
            Step::Clear => {},
            Step::Assign(val) => {
                lemma_limbs_of(val as nat);
            },
            Step::Sum(other) => {
                lemma_add_normalized(before, other);
            },
            Step::SumU64(val) => {
                lemma_add_u64_normalized(before, val);
                lemma_limbs_of((limbs_value(before) + val) as nat);
            },
        }
    }
    lemma_zero_is_empty(after_steps(limbs, steps));
}

} // verus!
