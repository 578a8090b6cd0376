//! Unsigned integers.

use crate::limbs::{
    is_normalized, lemma_limbs_of, lemma_limbs_of_u64, lemma_value_push, lemma_value_update,
    lemma_weight, lemma_weight_monotonic, lemma_zero_is_empty, limb_base, limbs_of, limbs_value,
    weight,
};
use crate::memory::{IAllocError, Word, WordArray, WordVec};
use crate::sums::{
    add_limbs, add_u64_limbs, add_width, carry_escapes, lemma_add_from_total,
    lemma_add_normalized, lemma_add_u64_normalized, lemma_add_value, lemma_carry_form,
    lemma_mul_add_normalized, longer_len, mul_add_limbs,
};
use crate::string::{parse_outcome, parse_unsigned_radix, ParseIntError};
use vstd::prelude::*;

verus! {

/// An unsigned integer of arbitrary size.
///
/// The limbs live in a [`WordArray`] of the caller's choice.
pub struct UnsignedInteger<A: WordArray = WordVec> {
    /// The internal array of words.
    pub(crate) words: A,
}

impl<A: WordArray> UnsignedInteger<A> {
    /// The array that holds the limbs.
    pub closed spec fn word_array(&self) -> A {
        self.words
    }

    /// The limbs, least significant first.
    pub open spec fn view(&self) -> Seq<Word> {
        self.word_array()@
    }

    /// The number of limbs that the integer has room for.
    pub open spec fn spec_capacity(&self) -> nat {
        self.word_array().spec_capacity()
    }

    /// The integer is well formed when its array is.
    pub open spec fn wf(&self) -> bool {
        self.word_array().wf()
    }

    /// The natural number that the integer stands for.
    pub open spec fn value(&self) -> nat {
        limbs_value(self@)
    }

    /// Whether the limbs are in normalized form.
    pub open spec fn is_normalized(&self) -> bool {
        is_normalized(self@)
    }

    /// The integer zero: no limbs, and no room for any.
    #[inline]
    pub fn zero() -> (zero: Self)
        ensures
            zero.wf(),
            zero@ == Seq::<Word>::empty(),
            zero.spec_capacity() == 0,
    {
        UnsignedInteger { words: A::empty() }
    }

    /// Sets the integer to zero. Its room stays.
    #[inline]
    pub fn set_zero(&mut self)
        requires
            old(self).wf(),
        ensures
            final(self).wf(),
            final(self)@ == Seq::<Word>::empty(),
            final(self).spec_capacity() == old(self).spec_capacity(),
    {
        self.words.clear();
    }

    /// Whether the integer has no limbs, which is how zero is written.
    #[inline]
    pub fn is_zero(&self) -> (zero: bool)
        requires
            self.wf(),
        ensures
            zero == (self@.len() == 0),
            self.is_normalized() ==> zero == (self.value() == 0),
    {
        proof {
            if self.is_normalized() {
                lemma_zero_is_empty(self@);
            }
        }
        self.words.len() == 0
    }

    /// The integer one, if room for its limb can be had.
    #[inline]
    pub fn one() -> (one: Result<Self, A::AllocErr>)
        ensures
            one matches Ok(n) ==> n.wf() && n@ == seq![Word(1)] && n.value() == 1
                && n.is_normalized(),
    {
        let mut res = Self::zero();
        proof {
            lemma_limbs_of_u64(1);
        }
        match res.set(1) {
            Ok(()) => Ok(res),
            Err(e) => Err(e),
        }
    }

    /// Whether the integer is the single limb one.
    #[inline]
    pub fn is_one(&self) -> (one: bool)
        requires
            self.wf(),
        ensures
            one == (self@ == seq![Word(1)]),
    {
        let one = self.words.len() == 1 && self.limb(0) == 1;
        proof {
            if one {
                assert(self@ =~= seq![Word(1)]);
            }
        }
        one
    }

    /// A slice of the limbs.
    #[inline]
    pub fn words(&self) -> (words: &[Word])
        requires
            self.wf(),
        ensures
            words@ == self@,
    {
        self.words.as_slice()
    }

    /// A mutable slice of the limbs. What is written through it is written
    /// to the integer; the number of limbs and the room stay.
    #[inline]
    pub fn words_mut(&mut self) -> (words: &mut [Word])
        requires
            old(self).wf(),
        ensures
            words@ == old(self)@,
            final(self)@ == final(words)@,
            final(self).spec_capacity() == old(self).spec_capacity(),
            final(words)@.len() == words@.len() ==> final(self).wf(),
    {
        self.words.as_mut_slice()
    }

    /// Sets the integer to `val`.
    ///
    /// The limbs are cleared first. If `val` is not zero, room for one limb
    /// is reserved and `val` becomes that limb; if no room can be had, the
    /// integer is left at zero. An integer that has room for a limb
    /// already is always set.
    #[inline]
    pub fn set(&mut self, val: u64) -> (r: Result<(), A::AllocErr>)
        requires
            old(self).wf(),
        ensures
            final(self).wf(),
            final(self).is_normalized(),
            final(self).spec_capacity() >= old(self).spec_capacity(),
            val == 0 || old(self).spec_capacity() > 0 ==> r is Ok,
            r is Ok ==> final(self)@ == limbs_of(val as nat),
            r is Ok ==> final(self).value() == val,
            r is Err ==> final(self)@ == Seq::<Word>::empty(),
    {
        proof {
            lemma_limbs_of_u64(val);
            lemma_limbs_of(val as nat);
        }
        self.words.clear();
        if val > 0 {
            match self.words.reserve(1) {
                Ok(()) => {
                    self.words.unchecked_push(Word(val));
                },
                Err(e) => {
                    return Err(e);
                },
            }
        }
        Ok(())
    }

    /// Makes an integer of an array of limbs.
    #[inline]
    pub fn from_word_array(words: A) -> (n: Self)
        ensures
            n.word_array() == words,
    {
        UnsignedInteger { words }
    }

    /// The underlying array of limbs.
    #[inline]
    pub fn as_word_array(&self) -> (words: &A)
        ensures
            *words == self.word_array(),
    {
        &self.words
    }

    /// Adds `other` to this integer.
    ///
    /// Room for one limb more than the longer of the two has is reserved
    /// first. If that count overflows, or the room has to be asked for and
    /// cannot be had, the integer is left as it was. Otherwise the limbs
    /// are added as [`UnsignedInteger::unchecked_add`] adds them.
    #[inline]
    pub fn add(&mut self, other: &Self) -> (r: Result<(), A::AllocErr>)
        requires
            old(self).wf(),
            other.wf(),
        ensures
            final(self).wf(),
            final(self).spec_capacity() >= old(self).spec_capacity(),
            old(self)@.len() == usize::MAX || other@.len() == usize::MAX ==> r == Err::<(), _>(
                A::AllocErr::spec_capacity_arithmetic_overflow(),
            ),
            old(self)@.len() + longer_len(old(self)@, other@) + 1 <= old(self).spec_capacity()
                ==> r is Ok,
            r is Ok ==> final(self)@ == add_limbs(old(self)@, other@),
            r is Ok && !carry_escapes(old(self)@, other@) ==> final(self).value() == old(
                self,
            ).value() + other.value(),
            r is Err ==> final(self)@ == old(self)@,
            old(self).is_normalized() && other.is_normalized() ==> final(self).is_normalized(),
    {
        proof {
            self.words.lemma_wf_bounds();
        }
        let len: usize = self.words.len();
        let other_len: usize = other.words.len();
        let longer: usize = if len > other_len {
            len
        } else {
            other_len
        };
        let needed: usize = match longer.checked_add(1) {
            Some(needed) => needed,
            None => {
                return Err(A::AllocErr::capacity_arithmetic_overflow());
            },
        };
        match self.words.reserve(needed) {
            Ok(()) => {
                self.unchecked_add(other);
                Ok(())
            },
            Err(e) => Err(e),
        }
    }

    /// Adds `val` to this integer, after reserving room for one more limb.
    ///
    /// Where the integer has that room already, the addition is made. If
    /// the room has to be asked for and cannot be had, the integer is left
    /// as it was.
    #[inline]
    pub fn add_u64(&mut self, val: u64) -> (r: Result<(), A::AllocErr>)
        requires
            old(self).wf(),
        ensures
            final(self).wf(),
            final(self).spec_capacity() >= old(self).spec_capacity(),
            old(self)@.len() < old(self).spec_capacity() ==> r is Ok,
            r is Ok ==> final(self)@ == add_u64_limbs(old(self)@, val),
            r is Ok ==> final(self).value() == old(self).value() + val,
            r is Err ==> final(self)@ == old(self)@,
            old(self).is_normalized() ==> final(self).is_normalized(),
    {
        match self.words.reserve(1) {
            Ok(()) => {
                self.unchecked_add_u64(val);
                Ok(())
            },
            Err(e) => Err(e),
        }
    }

    /// Multiplies this integer by `factor` and adds `addend`, in room that
    /// was reserved before.
    ///
    /// Each limb is multiplied with the carry of the limb below added in;
    /// a carry out of the top limb is appended. The room must hold the
    /// result.
    pub fn unchecked_mul_add_u64(&mut self, factor: u64, addend: u64)
        requires
            old(self).wf(),
            old(self).value() * factor + addend < weight(old(self).spec_capacity()),
        ensures
            final(self).wf(),
            final(self)@ == mul_add_limbs(old(self)@, factor, addend),
            final(self).value() == old(self).value() * factor + addend,
            final(self).spec_capacity() == old(self).spec_capacity(),
            old(self).is_normalized() && factor > 0 ==> final(self).is_normalized(),
    {
        let ghost a = self@;
        let ghost v: nat = (limbs_value(a) * factor + addend) as nat;
        let len: usize = self.words.len();
        let mut carry: u64 = addend;
        let mut index: usize = 0;
        proof {
            lemma_weight(0);
            assert(limbs_value(a.take(0)) * factor == 0) by (nonlinear_arith)
                requires
                    limbs_value(a.take(0)) == 0,
            ;
            if is_normalized(a) && factor > 0 {
                lemma_mul_add_normalized(a, factor, addend);
                lemma_limbs_of(v);
            }
        }
        while index < len
            invariant
                self.wf(),
                a == old(self)@,
                self@.len() == len,
                len == a.len(),
                self.spec_capacity() == old(self).spec_capacity(),
                index <= len,
                forall|j: int| index <= j < len ==> self@[j] == a[j],
                limbs_value(self@.take(index as int)) + carry * weight(index as nat) == limbs_value(
                    a.take(index as int),
                ) * factor + addend,
            decreases len - index,
        {
            let limb: u64 = self.limb(index);
            assert(limb as u128 * factor as u128 + carry as u128 <= u128::MAX) by (nonlinear_arith)
                requires
                    limb <= u64::MAX,
                    factor <= u64::MAX,
                    carry <= u64::MAX,
            ;
            let product: u128 = (limb as u128) * (factor as u128) + (carry as u128);
            let low: u64 = (product % 0x1_0000_0000_0000_0000u128) as u64;
            let high: u64 = (product / 0x1_0000_0000_0000_0000u128) as u64;
            proof {
                let w = weight(index as nat);
                let before = self@.take(index as int);
                let lower = limbs_value(a.take(index as int));
                let after = self@.update(index as int, Word(low));
                lemma_weight(index as nat);
                assert(after.take(index + 1) =~= before.push(Word(low)));
                lemma_value_push(before, Word(low));
                assert(a.take(index + 1) =~= a.take(index as int).push(a[index as int]));
                lemma_value_push(a.take(index as int), a[index as int]);
                assert((low + high * limb_base()) * w == low * w + high * (w * limb_base()))
                    by (nonlinear_arith);
                assert((limb * factor + carry) * w == limb * w * factor + carry * w)
                    by (nonlinear_arith);
                assert((lower + limb * w) * factor == lower * factor + limb * w * factor)
                    by (nonlinear_arith);
            }
            self.set_limb(index, Word(low));
            carry = high;
            index += 1;
        }
        proof {
            assert(self@.take(len as int) =~= self@);
            assert(a.take(len as int) =~= a);
            lemma_carry_form(self@, carry as nat, v);
            if carry > 0 {
                assert(carry * weight(len as nat) >= weight(len as nat)) by (nonlinear_arith)
                    requires
                        carry >= 1,
                ;
                if self.spec_capacity() <= len {
                    lemma_weight_monotonic(self.spec_capacity(), len as nat);
                }
                lemma_value_push(self@, Word(carry));
            }
        }
        if carry > 0 {
            self.words.unchecked_push(Word(carry));
        }
    }

    /// Parses a string in the specified radix (base).
    ///
    /// See [`parse_unsigned_radix`] for what is accepted.
    #[inline]
    pub fn from_str_radix(str: &str, radix: u32) -> (r: Result<Self, ParseIntError<A::AllocErr>>)
        requires
            2 <= radix <= 36,
        ensures
            parse_outcome(r, str@, radix),
            r matches Ok(n) ==> n.wf() && n.is_normalized(),
    {
        parse_unsigned_radix(str, radix)
    }

    /// Writes `word` over the limb at `index`.
    #[inline]
    fn set_limb(&mut self, index: usize, word: Word)
        requires
            old(self).wf(),
            index < old(self)@.len(),
        ensures
            final(self).wf(),
            final(self)@ == old(self)@.update(index as int, word),
            final(self).spec_capacity() == old(self).spec_capacity(),
    {
        let limbs = self.words.as_mut_slice();
        limbs[index] = word;
    }

    /// Reads the limb at `index`.
    #[inline]
    fn limb(&self, index: usize) -> (word: u64)
        requires
            self.wf(),
            index < self@.len(),
        ensures
            word == self@[index as int].0,
    {
        self.words.as_slice()[index].0
    }

    /// Adds `other` to this integer, in room that was reserved before.
    ///
    /// This is the addition of the school book, limb by limb with a carry.
    /// Each limb of `other` is added, with the carry that came in, into the
    /// limb of `self` at the same index; where `self` has no limb there yet,
    /// it gets a zero limb first. The carry that is left after the last limb
    /// of `other` is added into the next limb of `self`, which is made
    /// first where `self` ends there; if that limb overflows, a limb of one
    /// is appended.
    ///
    /// The carry is not taken further than that one limb: where `self` has
    /// limbs above it and it overflows, which is when [`carry_escapes`]
    /// holds, the limbs that result do not stand for the sum. For every
    /// other pair of operands they do.
    pub fn unchecked_add(&mut self, other: &Self)
        requires
            old(self).wf(),
            other.wf(),
            old(self)@.len() < old(self).spec_capacity(),
            other@.len() < old(self).spec_capacity(),
        ensures
            final(self).wf(),
            final(self)@ == add_limbs(old(self)@, other@),
            final(self).spec_capacity() == old(self).spec_capacity(),
            !carry_escapes(old(self)@, other@) ==> final(self).value() == old(self).value()
                + other.value(),
            old(self).is_normalized() && other.is_normalized() ==> final(self).is_normalized(),
    {
        let ghost a = self@;
        let ghost b = other@;
        proof {
            if !carry_escapes(a, b) {
                lemma_add_value(a, b);
            }
            if is_normalized(a) && is_normalized(b) {
                lemma_add_normalized(a, b);
            }
        }
        let addend_len: usize = other.words.len();
        let mut carry: bool = false;
        let mut index: usize = 0;
        while index < addend_len
            invariant
                self.wf(),
                other.wf(),
                a == old(self)@,
                b == other@,
                addend_len == b.len(),
                self.spec_capacity() == old(self).spec_capacity(),
                a.len() < self.spec_capacity(),
                b.len() < self.spec_capacity(),
                index <= addend_len,
                self@.len() == (if a.len() > index {
                    a.len()
                } else {
                    index as nat
                }),
                forall|j: int| index <= j < a.len() ==> self@[j] == a[j],
                limbs_value(self@) + (if carry {
                    1nat
                } else {
                    0nat
                }) * weight(index as nat) == limbs_value(a) + limbs_value(b.take(index as int)),
            decreases addend_len - index,
        {
            assert(index <= self@.len());
            if index == self.words.len() {
                proof {
                    lemma_value_push(self@, Word(0));
                    assert(0 * weight(self@.len()) == 0) by (nonlinear_arith);
                }
                self.words.unchecked_push(Word(0));
            }
            let target: u64 = self.limb(index);
            let addend: u64 = other.limb(index);
            let with_carry_in: u64 = addend.wrapping_add(if carry {
                1
            } else {
                0
            });
            let first_overflow: bool = carry && with_carry_in == 0;
            let sum: u64 = target.wrapping_add(with_carry_in);
            let second_overflow: bool = sum < target;
            assert(!(first_overflow && second_overflow));
            proof {
                let w = weight(index as nat);
                let c_in: nat = if carry {
                    1
                } else {
                    0
                };
                let c_out: nat = if first_overflow || second_overflow {
                    1
                } else {
                    0
                };
                lemma_value_update(self@, index as nat, Word(sum));
                lemma_weight(index as nat);
                assert(b.take(index + 1) =~= b.take(index as int).push(b[index as int]));
                lemma_value_push(b.take(index as int), b[index as int]);
                assert((sum + c_out * limb_base()) * w == sum * w + c_out * (w * limb_base()))
                    by (nonlinear_arith);
                assert((target + addend + c_in) * w == target * w + addend * w + c_in * w)
                    by (nonlinear_arith);
            }
            self.set_limb(index, Word(sum));
            carry = first_overflow || second_overflow;
            index += 1;
        }
        proof {
            assert(b.take(addend_len as int) =~= b);
            lemma_weight(addend_len as nat);
        }
        if carry {
            if addend_len == self.words.len() {
                proof {
                    lemma_add_from_total(a, b, self@, 1);
                }
                self.words.unchecked_push(Word(1));
            } else {
                let target: u64 = self.limb(addend_len);
                let sum: u64 = target.wrapping_add(1);
                let overflow: bool = sum == 0;
                proof {
                    let w = weight(addend_len as nat);
                    let c_out: nat = if overflow {
                        1
                    } else {
                        0
                    };
                    lemma_value_update(self@, addend_len as nat, Word(sum));
                    assert((sum + c_out * limb_base()) * w == sum * w + c_out * (w * limb_base()))
                        by (nonlinear_arith);
                    assert((target + 1) * w == target * w + 1 * w) by (nonlinear_arith);
                    lemma_add_from_total(
                        a,
                        b,
                        self@.update(addend_len as int, Word(sum)),
                        c_out,
                    );
                }
                self.set_limb(addend_len, Word(sum));
                if overflow {
                    self.words.unchecked_push(Word(1));
                }
            }
        } else {
            proof {
                assert(0 * weight(add_width(a, b)) == 0) by (nonlinear_arith);
                lemma_add_from_total(a, b, self@, 0);
            }
        }
    }

    /// Adds `val` to this integer, in room that was reserved before.
    ///
    /// The addend is carried through the limbs until no carry is left; a
    /// carry out of the top limb is appended.
    pub fn unchecked_add_u64(&mut self, val: u64)
        requires
            old(self).wf(),
            old(self)@.len() < old(self).spec_capacity(),
        ensures
            final(self).wf(),
            final(self)@ == add_u64_limbs(old(self)@, val),
            final(self).value() == old(self).value() + val,
            final(self).spec_capacity() == old(self).spec_capacity(),
            old(self).is_normalized() ==> final(self).is_normalized(),
    {
        proof {
            if self.is_normalized() {
                lemma_add_u64_normalized(self@, val);
                lemma_limbs_of((limbs_value(self@) + val) as nat);
            }
        }
        let len: usize = self.words.len();
        let mut carry: u64 = val;
        let mut index: usize = 0;
        proof {
            lemma_weight(0);
        }
        while index < len && carry > 0
            invariant
                self.wf(),
                self@.len() == len,
                len == old(self)@.len(),
                self.spec_capacity() == old(self).spec_capacity(),
                index <= len,
                index > 0 ==> carry <= 1,
                limbs_value(self@) + carry * weight(index as nat) == limbs_value(old(self)@) + val,
            decreases len - index,
        {
            let limb: u64 = self.limb(index);
            let sum: u64 = limb.wrapping_add(carry);
            let overflow: bool = sum < limb;
            proof {
                lemma_value_update(self@, index as nat, Word(sum));
                lemma_weight(index as nat);
                let w = weight(index as nat);
                let c: nat = if overflow {
                    1
                } else {
                    0
                };
                assert((sum + c * limb_base()) * w == sum * w + c * (w * limb_base()))
                    by (nonlinear_arith);
                assert((limb + carry) * w == limb * w + carry * w) by (nonlinear_arith);
            }
            self.set_limb(index, Word(sum));
            carry = if overflow {
                1
            } else {
                0
            };
            index += 1;
        }
        proof {
            if carry > 0 {
                lemma_carry_form(self@, carry as nat, (limbs_value(old(self)@) + val) as nat);
                lemma_value_push(self@, Word(carry));
            } else {
                assert(carry * weight(index as nat) == 0) by (nonlinear_arith)
                    requires
                        carry == 0,
                ;
                assert(0 * weight(len as nat) == 0) by (nonlinear_arith);
                lemma_carry_form(self@, 0, (limbs_value(old(self)@) + val) as nat);
            }
        }
        if carry > 0 {
            self.words.unchecked_push(Word(carry));
        }
    }
}

} // verus!
