//! The mathematical model of limb sequences.
//!
//! A sequence of [`Word`]s, least significant first, stands for the natural
//! number `sum of limbs[i] * 2^(64 * i)`. This module defines that number,
//! the normalized form, and the facts about both that the arithmetic is
//! proved from.

use crate::memory::Word;
use vstd::arithmetic::div_mod::{
    lemma_fundamental_div_mod_converse, lemma_mod_breakdown, lemma_small_mod,
};
use vstd::arithmetic::power2::{lemma2_to64, lemma_pow2_adds, lemma_pow2_pos, pow2};
use vstd::prelude::*;

verus! {

/// The number of values that one limb can take: `2^64`.
pub open spec fn limb_base() -> nat {
    0x1_0000_0000_0000_0000
}

/// The weight of the limb at index `i`: `2^(64 * i)`.
pub open spec fn weight(i: nat) -> nat {
    pow2(64 * i)
}

/// The natural number that `limbs` stands for.
pub open spec fn limbs_value(limbs: Seq<Word>) -> nat
    decreases limbs.len(),
{
    if limbs.len() == 0 {
        0
    } else {
        limbs_value(limbs.drop_last()) + (limbs.last().0 as nat) * weight(
            (limbs.len() - 1) as nat,
        )
    }
}

/// A limb sequence is normalized when its most significant limb, if it has
/// any, is not zero. Zero is the empty sequence.
pub open spec fn is_normalized(limbs: Seq<Word>) -> bool {
    limbs.len() == 0 || limbs.last().0 != 0
}

/// The limb at index `i` of the number `v`.
pub open spec fn limb_at(v: nat, i: nat) -> Word {
    Word(((v / weight(i)) % limb_base()) as u64)
}

/// The lowest `width` limbs of the number `v`.
pub open spec fn fixed_limbs(v: nat, width: nat) -> Seq<Word> {
    Seq::new(width, |i: int| limb_at(v, i as nat))
}

/// The number of limbs that `v` needs: the least `n` with `v < 2^(64 * n)`.
pub open spec fn limb_count(v: nat) -> nat
    decreases v,
{
    if v == 0 {
        0
    } else {
        1 + limb_count(v / limb_base())
    }
}

/// The normalized limb sequence of the number `v`.
pub open spec fn limbs_of(v: nat) -> Seq<Word> {
    fixed_limbs(v, limb_count(v))
}

/// The first `width` limbs of `limbs`, or all of them if there are fewer.
pub open spec fn low_part(limbs: Seq<Word>, width: nat) -> Seq<Word> {
    if width < limbs.len() {
        limbs.take(width as int)
    } else {
        limbs
    }
}

/// The limbs of `limbs` from index `width` on.
pub open spec fn high_part(limbs: Seq<Word>, width: nat) -> Seq<Word> {
    if width < limbs.len() {
        limbs.skip(width as int)
    } else {
        Seq::empty()
    }
}

/// `limbs`, with `carry` appended as one more limb unless it is zero.
pub open spec fn with_carry(limbs: Seq<Word>, carry: nat) -> Seq<Word> {
    if carry == 0 {
        limbs
    } else {
        limbs.push(Word(carry as u64))
    }
}

/// Weights are positive, start at one and grow by the limb base.
pub proof fn lemma_weight(i: nat)
    ensures
        weight(0) == 1,
        weight(1) == limb_base(),
        weight(i) > 0,
        weight(i + 1) == weight(i) * limb_base(),
{
    lemma2_to64();
    lemma_pow2_pos(64 * i);
    lemma_pow2_adds(64 * i, 64);
}

/// The weight of a sum of indices is the product of the weights.
pub proof fn lemma_weight_adds(i: nat, j: nat)
    ensures
        weight(i + j) == weight(i) * weight(j),
{
    lemma_pow2_adds(64 * i, 64 * j);
}

/// Weights grow with the index.
pub proof fn lemma_weight_monotonic(i: nat, j: nat)
    requires
        i <= j,
    ensures
        weight(i) <= weight(j),
        i < j ==> weight(i) * limb_base() <= weight(j),
    decreases j - i,
{
    lemma_weight(i);
    if i < j {
        lemma_weight_monotonic(i + 1, j);
        assert(weight(i) <= weight(i) * limb_base()) by (nonlinear_arith)
            requires
                weight(i) > 0,
                limb_base() >= 1,
        ;
    }
}

/// Appending a limb adds the limb times the weight of its index.
pub proof fn lemma_value_push(limbs: Seq<Word>, word: Word)
    ensures
        limbs_value(limbs.push(word)) == limbs_value(limbs) + word.0 * weight(limbs.len()),
{
    assert(limbs.push(word).drop_last() =~= limbs);
}

/// A sequence of `n` limbs stands for a number below `2^(64 * n)`.
pub proof fn lemma_value_bound(limbs: Seq<Word>)
    ensures
        limbs_value(limbs) < weight(limbs.len()),
    decreases limbs.len(),
{
    lemma_weight(0);
    if limbs.len() > 0 {
        let n = (limbs.len() - 1) as nat;
        lemma_value_bound(limbs.drop_last());
        lemma_weight(n);
        let top = limbs.last().0 as nat;
        assert(top * weight(n) <= (limb_base() - 1) * weight(n)) by (nonlinear_arith)
            requires
                top <= limb_base() - 1,
        ;
        assert((limb_base() - 1) * weight(n) + weight(n) == weight(n) * limb_base())
            by (nonlinear_arith);
    }
}

/// The value of a sequence is the value of its first `k` limbs plus the
/// value of the rest times the weight of index `k`.
pub proof fn lemma_value_split(limbs: Seq<Word>, k: nat)
    requires
        k <= limbs.len(),
    ensures
        limbs_value(limbs) == limbs_value(limbs.take(k as int)) + weight(k) * limbs_value(
            limbs.skip(k as int),
        ),
    decreases limbs.len(),
{
    if k == limbs.len() {
        assert(limbs.take(k as int) =~= limbs);
        assert(weight(k) * limbs_value(limbs.skip(k as int)) == 0) by (nonlinear_arith)
            requires
                limbs_value(limbs.skip(k as int)) == 0,
        ;
    } else {
        let n = (limbs.len() - 1) as nat;
        let front = limbs.drop_last();
        let rest = limbs.skip(k as int);
        lemma_value_split(front, k);
        assert(front.take(k as int) =~= limbs.take(k as int));
        assert(rest.drop_last() =~= front.skip(k as int));
        let hi = limbs_value(front.skip(k as int));
        let top = limbs.last().0 as nat;
        let m = (n - k) as nat;
        lemma_weight_adds(k, m);
        assert(weight(k) * (hi + top * weight(m)) == weight(k) * hi + top * (weight(k) * weight(m)))
            by (nonlinear_arith);
    }
}

/// Replacing the limb at index `i` moves the value by the difference of
/// the two limbs times the weight of `i`.
pub proof fn lemma_value_update(limbs: Seq<Word>, i: nat, word: Word)
    requires
        i < limbs.len(),
    ensures
        limbs_value(limbs.update(i as int, word)) + (limbs[i as int].0 as nat) * weight(i)
            == limbs_value(limbs) + (word.0 as nat) * weight(i),
    decreases limbs.len(),
{
    let n = (limbs.len() - 1) as nat;
    let updated = limbs.update(i as int, word);
    if i == n {
        assert(updated.drop_last() =~= limbs.drop_last());
    } else {
        lemma_value_update(limbs.drop_last(), i, word);
        assert(updated.drop_last() =~= limbs.drop_last().update(i as int, word));
    }
}

/// Two sequences of one length that stand for one number are equal.
pub proof fn lemma_value_unique(a: Seq<Word>, b: Seq<Word>)
    requires
        a.len() == b.len(),
        limbs_value(a) == limbs_value(b),
    ensures
        a == b,
    decreases a.len(),
{
    if a.len() > 0 {
        let n = (a.len() - 1) as nat;
        let w = weight(n) as int;
        lemma_value_bound(a.drop_last());
        lemma_value_bound(b.drop_last());
        let v = limbs_value(a) as int;
        lemma_fundamental_div_mod_converse(
            v,
            w,
            a.last().0 as int,
            limbs_value(a.drop_last()) as int,
        );
        lemma_fundamental_div_mod_converse(
            v,
            w,
            b.last().0 as int,
            limbs_value(b.drop_last()) as int,
        );
        lemma_value_unique(a.drop_last(), b.drop_last());
        assert(a =~= a.drop_last().push(a.last()));
        assert(b =~= b.drop_last().push(b.last()));
    }
    assert(a =~= b);
}

/// The lowest `width` limbs of `v` stand for `v` modulo `2^(64 * width)`.
pub proof fn lemma_fixed_limbs_value(v: nat, width: nat)
    ensures
        limbs_value(fixed_limbs(v, width)) == v % weight(width),
    decreases width,
{
    lemma_weight(0);
    if width > 0 {
        let n = (width - 1) as nat;
        lemma_fixed_limbs_value(v, n);
        lemma_weight(n);
        assert(fixed_limbs(v, width).drop_last() =~= fixed_limbs(v, n));
        lemma_mod_breakdown(v as int, weight(n) as int, limb_base() as int);
        assert(((v / weight(n)) % limb_base()) * weight(n) == weight(n) * ((v as int / weight(
            n,
        ) as int) % limb_base() as int)) by (nonlinear_arith);
    }
}

/// A sequence is the fixed-width form of its own value.
pub proof fn lemma_fixed_limbs_of_value(limbs: Seq<Word>)
    ensures
        fixed_limbs(limbs_value(limbs), limbs.len()) == limbs,
{
    let v = limbs_value(limbs);
    lemma_fixed_limbs_value(v, limbs.len());
    lemma_value_bound(limbs);
    lemma_small_mod(v, weight(limbs.len()));
    lemma_value_unique(fixed_limbs(v, limbs.len()), limbs);
}

/// The fixed-width form of a number only depends on the number modulo
/// `2^(64 * width)`.
pub proof fn lemma_fixed_limbs_mod(v: nat, width: nat)
    ensures
        fixed_limbs(v % weight(width), width) == fixed_limbs(v, width),
{
    lemma_weight(width);
    let r = v % weight(width);
    lemma_fixed_limbs_value(v, width);
    lemma_fixed_limbs_value(r, width);
    lemma_small_mod(r, weight(width));
    lemma_value_unique(fixed_limbs(r, width), fixed_limbs(v, width));
}

/// A normalized sequence of `n > 0` limbs stands for a number of at least
/// `2^(64 * (n - 1))`.
pub proof fn lemma_normalized_lower_bound(limbs: Seq<Word>)
    requires
        is_normalized(limbs),
        limbs.len() > 0,
    ensures
        limbs_value(limbs) >= weight((limbs.len() - 1) as nat),
{
    let n = (limbs.len() - 1) as nat;
    let top = limbs.last().0 as nat;
    assert(top * weight(n) >= weight(n)) by (nonlinear_arith)
        requires
            top >= 1,
    ;
}

/// A sequence whose value reaches the weight of its last index is
/// normalized.
pub proof fn lemma_large_is_normalized(limbs: Seq<Word>)
    requires
        limbs.len() > 0,
        limbs_value(limbs) >= weight((limbs.len() - 1) as nat),
    ensures
        is_normalized(limbs),
{
    lemma_value_bound(limbs.drop_last());
    if limbs.last().0 == 0 {
        assert(limbs.last().0 * weight((limbs.len() - 1) as nat) == 0) by (nonlinear_arith)
            requires
                limbs.last().0 == 0,
        ;
    }
}

/// `limb_count(v)` limbs are enough for `v`, and one fewer are not.
pub proof fn lemma_limb_count(v: nat)
    ensures
        v < weight(limb_count(v)),
        limb_count(v) > 0 ==> v >= weight((limb_count(v) - 1) as nat),
        v == 0 <==> limb_count(v) == 0,
    decreases v,
{
    lemma_weight(0);
    if v > 0 {
        let q = v / limb_base();
        let n = limb_count(q);
        lemma_limb_count(q);
        lemma_weight(n);
        assert(v < weight(n) * limb_base()) by (nonlinear_arith)
            requires
                q < weight(n),
                v < limb_base() * q + limb_base(),
        ;
        if n > 0 {
            let m = (n - 1) as nat;
            lemma_weight(m);
            assert(v >= weight(m) * limb_base()) by (nonlinear_arith)
                requires
                    q >= weight(m),
                    v >= limb_base() * q,
            ;
        }
    }
}

/// A number below `2^(64 * n)` needs at most `n` limbs.
pub proof fn lemma_limb_count_bound(v: nat, n: nat)
    requires
        v < weight(n),
    ensures
        limb_count(v) <= n,
{
    lemma_limb_count(v);
    if limb_count(v) > n {
        lemma_weight_monotonic(n, (limb_count(v) - 1) as nat);
    }
}

/// `limbs_of(v)` stands for `v` and is normalized.
pub proof fn lemma_limbs_of(v: nat)
    ensures
        limbs_value(limbs_of(v)) == v,
        is_normalized(limbs_of(v)),
        limbs_of(v).len() == limb_count(v),
{
    lemma_limb_count(v);
    lemma_fixed_limbs_value(v, limb_count(v));
    lemma_small_mod(v, weight(limb_count(v)));
    if limb_count(v) > 0 {
        lemma_large_is_normalized(limbs_of(v));
    }
}

/// A normalized sequence is the one normalized form of its value.
pub proof fn lemma_normalized_is_canonical(limbs: Seq<Word>)
    requires
        is_normalized(limbs),
    ensures
        limbs == limbs_of(limbs_value(limbs)),
        limbs.len() == limb_count(limbs_value(limbs)),
{
    let v = limbs_value(limbs);
    lemma_limb_count(v);
    lemma_value_bound(limbs);
    if limbs.len() > 0 {
        lemma_normalized_lower_bound(limbs);
    }
    if limb_count(v) < limbs.len() {
        lemma_weight_monotonic(limb_count(v), (limbs.len() - 1) as nat);
    } else if limbs.len() < limb_count(v) {
        lemma_weight_monotonic(limbs.len(), (limb_count(v) - 1) as nat);
    }
    lemma_fixed_limbs_of_value(limbs);
}

/// Among normalized sequences, zero is the empty sequence and nothing else.
pub proof fn lemma_zero_is_empty(limbs: Seq<Word>)
    requires
        is_normalized(limbs),
    ensures
        limbs_value(limbs) == 0 <==> limbs.len() == 0,
{
    lemma_weight((limbs.len() - 1) as nat);
    if limbs.len() > 0 {
        lemma_normalized_lower_bound(limbs);
    }
}

/// A single limb stands for itself.
pub proof fn lemma_value_single(word: Word)
    ensures
        limbs_value(seq![word]) == word.0,
{
    let s = seq![word];
    lemma_weight(0);
    assert(s.drop_last() =~= Seq::<Word>::empty());
    assert(limbs_value(s.drop_last()) == 0);
    assert((word.0 as nat) * weight(0) == word.0) by (nonlinear_arith)
        requires
            weight(0) == 1,
    ;
}

/// The normalized form of a number that fits one limb is that limb, or
/// nothing for zero.
pub proof fn lemma_limbs_of_u64(v: u64)
    ensures
        limbs_of(v as nat) == (if v == 0 {
            Seq::<Word>::empty()
        } else {
            seq![Word(v)]
        }),
{
    let s = if v == 0 {
        Seq::<Word>::empty()
    } else {
        seq![Word(v)]
    };
    if v != 0 {
        lemma_value_single(Word(v));
    }
    lemma_normalized_is_canonical(s);
}

} // verus!
