//! The abstract interface to limb storage.
//!
//! The arithmetic in this crate never allocates by itself: it asks a
//! [`WordArray`] for room and then writes into the room it was given.
//! Hosts with special needs (foreign buffers, arenas, a collected heap)
//! implement [`WordArray`] for their own buffer; [`WordVec`] is the
//! ready-made backing on the global allocator.

use vstd::prelude::*;

verus! {

/// A single limb of an arbitrary-precision integer.
///
/// Limbs are stored least significant first.
#[derive(Clone, Copy, Debug, PartialEq, Eq, Structural, Hash, PartialOrd, Ord)]
pub struct Word(pub u64);

impl Word {
    /// The number of bits in a limb.
    pub const BITS: u64 = 64;
}

/// The error kind of a limb storage.
///
/// Besides whatever failures the storage itself can report, the kind has
/// one distinguished value that says that the arithmetic which plans a
/// capacity has overflowed, so that no allocation was attempted.
pub trait IAllocError: Sized {
    /// The distinguished value for overflowed capacity arithmetic.
    spec fn spec_capacity_arithmetic_overflow() -> Self;

    /// Creates the error that says that capacity arithmetic overflowed.
    fn capacity_arithmetic_overflow() -> (e: Self)
        ensures
            e == Self::spec_capacity_arithmetic_overflow(),
    ;
}

/// A growable array of [`Word`]s.
///
/// The array has a length and a capacity. Only [`WordArray::reserve`] and
/// [`WordArray::with_capacity`] can fail; a push into reserved room cannot.
pub trait WordArray: Sized + Clone + core::fmt::Debug + Default {
    /// The error reported when room cannot be had.
    type AllocErr: IAllocError;

    /// The words held, least significant first.
    spec fn view(&self) -> Seq<Word>;

    /// The number of words that the array has room for.
    spec fn spec_capacity(&self) -> nat;

    /// The array's own invariant. It implies that the length is at most
    /// the capacity, and that the capacity fits a `usize`.
    spec fn wf(&self) -> bool;

    /// The bounds that every well-formed array obeys.
    proof fn lemma_wf_bounds(&self)
        requires
            self.wf(),
        ensures
            self@.len() <= self.spec_capacity() <= usize::MAX,
    ;

    /// An array without words and without room: nothing is allocated.
    fn empty() -> (array: Self)
        ensures
            array.wf(),
            array@ == Seq::<Word>::empty(),
            array.spec_capacity() == 0,
    ;

    /// An array without words, with room for at least `capacity` of them.
    fn with_capacity(capacity: usize) -> (r: Result<Self, Self::AllocErr>)
        ensures
            r matches Ok(array) ==> array.wf() && array@ == Seq::<Word>::empty()
                && array.spec_capacity() >= capacity,
    ;

    /// The number of words in the array.
    fn len(&self) -> (n: usize)
        requires
            self.wf(),
        ensures
            n == self@.len(),
    ;

    /// Empties the array. Its capacity stays.
    fn clear(&mut self)
        requires
            old(self).wf(),
        ensures
            final(self).wf(),
            final(self)@ == Seq::<Word>::empty(),
            final(self).spec_capacity() == old(self).spec_capacity(),
    ;

    /// The number of words that the array has room for.
    fn capacity(&self) -> (n: usize)
        requires
            self.wf(),
        ensures
            n == self.spec_capacity(),
    ;

    /// Makes room for `additional` more words than the array holds.
    ///
    /// Where the array has that room already, nothing has to be allocated
    /// and the call succeeds. The words never change and the capacity
    /// never shrinks, whether room could be had or not.
    fn reserve(&mut self, additional: usize) -> (r: Result<(), Self::AllocErr>)
        requires
            old(self).wf(),
        ensures
            final(self).wf(),
            final(self)@ == old(self)@,
            final(self).spec_capacity() >= old(self).spec_capacity(),
            old(self)@.len() + additional <= old(self).spec_capacity() ==> r is Ok,
            r is Ok ==> final(self).spec_capacity() >= old(self)@.len() + additional,
    ;

    /// Appends `word`, making room for it first.
    ///
    /// Where the array has room for one more word, the word is appended.
    /// Otherwise room is asked for, and when none can be had the array is
    /// left as it was.
    #[inline]
    fn push(&mut self, word: Word) -> (r: Result<(), Self::AllocErr>)
        requires
            old(self).wf(),
        ensures
            final(self).wf(),
            final(self).spec_capacity() >= old(self).spec_capacity(),
            old(self)@.len() < old(self).spec_capacity() ==> r is Ok,
            r is Ok ==> final(self)@ == old(self)@.push(word),
            r is Err ==> final(self)@ == old(self)@,
    {
        match self.reserve(1) {
            Ok(()) => {
                self.unchecked_push(word);
                Ok(())
            },
            Err(e) => Err(e),
        }
    }

    /// Appends `word` into room that was reserved before.
    fn unchecked_push(&mut self, word: Word)
        requires
            old(self).wf(),
            old(self)@.len() < old(self).spec_capacity(),
        ensures
            final(self).wf(),
            final(self)@ == old(self)@.push(word),
            final(self).spec_capacity() == old(self).spec_capacity(),
    ;

    /// The words as a slice.
    fn as_slice(&self) -> (words: &[Word])
        requires
            self.wf(),
        ensures
            words@ == self@,
    ;

    /// The words as a mutable slice. Words written through it are
    /// written to the array; its length and capacity stay.
    fn as_mut_slice(&mut self) -> (words: &mut [Word])
        requires
            old(self).wf(),
        ensures
            words@ == old(self)@,
            final(self)@ == final(words)@,
            final(self).spec_capacity() == old(self).spec_capacity(),
            final(words)@.len() == words@.len() ==> final(self).wf(),
    ;
}

/// Why a [`WordVec`] could not make room.
#[derive(Clone, Copy, Debug, PartialEq, Eq, Structural)]
pub enum AllocError {
    /// The arithmetic that plans a capacity overflowed.
    CapacityOverflow,
    /// The allocator could not provide the room asked for.
    AllocFailed,
}

impl IAllocError for AllocError {
    open spec fn spec_capacity_arithmetic_overflow() -> Self {
        AllocError::CapacityOverflow
    }

    fn capacity_arithmetic_overflow() -> (e: Self) {
        AllocError::CapacityOverflow
    }
}

/// Limb storage on the global allocator.
///
/// The capacity of a `WordVec` is the room that was asked for, and
/// granted, through [`WordArray::with_capacity`] and
/// [`WordArray::reserve`].
#[derive(Debug)]
pub struct WordVec {
    words: Vec<Word>,
    capacity: usize,
}

impl Clone for WordVec {
    /// A copy of the words. The copy has room for just these.
    fn clone(&self) -> (array: Self)
        ensures
            array.wf(),
            array@ == self@,
            array.spec_capacity() == self@.len(),
    {
        let words = self.words.clone();
        proof {
            assert(words@ =~= self.words@);
        }
        let capacity = words.len();
        WordVec { words, capacity }
    }
}

impl Default for WordVec {
    fn default() -> (array: Self)
        ensures
            array.wf(),
            array@ == Seq::<Word>::empty(),
            array.spec_capacity() == 0,
    {
        WordVec { words: Vec::new(), capacity: 0 }
    }
}

impl WordArray for WordVec {
    type AllocErr = AllocError;

    closed spec fn view(&self) -> Seq<Word> {
        self.words@
    }

    closed spec fn spec_capacity(&self) -> nat {
        self.capacity as nat
    }

    closed spec fn wf(&self) -> bool {
        self.words@.len() <= self.capacity
    }

    proof fn lemma_wf_bounds(&self) {
    }

    #[inline]
    fn empty() -> (array: Self) {
        WordVec { words: Vec::new(), capacity: 0 }
    }

    #[inline]
    fn with_capacity(capacity: usize) -> (r: Result<Self, AllocError>)
        ensures
            r matches Ok(array) ==> array.spec_capacity() == capacity,
            r matches Err(e) ==> e == AllocError::AllocFailed,
    {
        let mut words: Vec<Word> = Vec::new();
        match words.try_reserve(capacity) {
            Ok(()) => Ok(WordVec { words, capacity }),
            Err(_) => Err(AllocError::AllocFailed),
        }
    }

    #[inline]
    fn len(&self) -> (n: usize) {
        self.words.len()
    }

    #[inline]
    fn clear(&mut self) {
        self.words.clear();
    }

    #[inline]
    fn capacity(&self) -> (n: usize) {
        self.capacity
    }

    #[inline]
    fn reserve(&mut self, additional: usize) -> (r: Result<(), AllocError>)
        ensures
            old(self)@.len() + additional > usize::MAX ==> r == Err::<(), _>(
                AllocError::CapacityOverflow,
            ),
            old(self)@.len() + additional <= usize::MAX ==> r == Err::<(), _>(
                AllocError::AllocFailed,
            ) || r is Ok,
            r is Err ==> final(self).spec_capacity() == old(self).spec_capacity(),
            r is Ok ==> final(self).spec_capacity() == (if old(self).spec_capacity() >= old(
                self,
            )@.len() + additional {
                old(self).spec_capacity()
            } else {
                old(self)@.len() + (additional as nat)
            }),
    {
        match self.words.len().checked_add(additional) {
            None => Err(AllocError::CapacityOverflow),
            Some(total) => {
                if total <= self.capacity {
                    return Ok(());
                }
                match self.words.try_reserve(additional) {
                    Ok(()) => {
                        self.capacity = total;
                        Ok(())
                    },
                    Err(_) => Err(AllocError::AllocFailed),
                }
            },
        }
    }

    #[inline]
    fn unchecked_push(&mut self, word: Word) {
        self.words.push(word);
    }

    #[inline]
    fn as_slice(&self) -> (words: &[Word]) {
        self.words.as_slice()
    }

    #[inline]
    fn as_mut_slice(&mut self) -> (words: &mut [Word]) {
        self.words.as_mut_slice()
    }
}

/// Limb storage on the global allocator that never holds more than
/// `LIMIT` words.
///
/// Room beyond the limit is refused with [`AllocError::AllocFailed`], so
/// that a host can bound what one integer may take.
#[derive(Debug)]
pub struct BoundedWords<const LIMIT: usize> {
    words: Vec<Word>,
    capacity: usize,
}

impl<const LIMIT: usize> Clone for BoundedWords<LIMIT> {
    /// A copy of the words. The copy has room for just these.
    fn clone(&self) -> (array: Self)
        ensures
            self.wf() ==> array.wf(),
            array@ == self@,
            array.spec_capacity() == self@.len(),
    {
        let words = self.words.clone();
        proof {
            assert(words@ =~= self.words@);
        }
        let capacity = words.len();
        BoundedWords { words, capacity }
    }
}

impl<const LIMIT: usize> Default for BoundedWords<LIMIT> {
    fn default() -> (array: Self)
        ensures
            array.wf(),
            array@ == Seq::<Word>::empty(),
            array.spec_capacity() == 0,
    {
        BoundedWords { words: Vec::new(), capacity: 0 }
    }
}

impl<const LIMIT: usize> WordArray for BoundedWords<LIMIT> {
    type AllocErr = AllocError;

    closed spec fn view(&self) -> Seq<Word> {
        self.words@
    }

    closed spec fn spec_capacity(&self) -> nat {
        self.capacity as nat
    }

    closed spec fn wf(&self) -> bool {
        self.words@.len() <= self.capacity <= LIMIT
    }

    proof fn lemma_wf_bounds(&self) {
    }

    #[inline]
    fn empty() -> (array: Self) {
        BoundedWords { words: Vec::new(), capacity: 0 }
    }

    #[inline]
    fn with_capacity(capacity: usize) -> (r: Result<Self, AllocError>)
        ensures
            capacity > LIMIT ==> r is Err,
            r matches Ok(array) ==> array.spec_capacity() == capacity,
            r matches Err(e) ==> e == AllocError::AllocFailed,
    {
        if capacity > LIMIT {
            return Err(AllocError::AllocFailed);
        }
        let mut words: Vec<Word> = Vec::new();
        match words.try_reserve(capacity) {
            Ok(()) => Ok(BoundedWords { words, capacity }),
            Err(_) => Err(AllocError::AllocFailed),
        }
    }

    #[inline]
    fn len(&self) -> (n: usize) {
        self.words.len()
    }

    #[inline]
    fn clear(&mut self) {
        self.words.clear();
    }

    #[inline]
    fn capacity(&self) -> (n: usize) {
        self.capacity
    }

    #[inline]
    fn reserve(&mut self, additional: usize) -> (r: Result<(), AllocError>)
        ensures
            old(self)@.len() + additional > usize::MAX ==> r == Err::<(), _>(
                AllocError::CapacityOverflow,
            ),
            LIMIT < old(self)@.len() + additional <= usize::MAX ==> r == Err::<(), _>(
                AllocError::AllocFailed,
            ),
            old(self)@.len() + additional <= usize::MAX ==> r == Err::<(), _>(
                AllocError::AllocFailed,
            ) || r is Ok,
            r is Err ==> final(self).spec_capacity() == old(self).spec_capacity(),
            r is Ok ==> final(self).spec_capacity() == (if old(self).spec_capacity() >= old(
                self,
            )@.len() + additional {
                old(self).spec_capacity()
            } else {
                old(self)@.len() + (additional as nat)
            }),
    {
        match self.words.len().checked_add(additional) {
            None => Err(AllocError::CapacityOverflow),
            Some(total) => {
                if total <= self.capacity {
                    return Ok(());
                }
                if total > LIMIT {
                    return Err(AllocError::AllocFailed);
                }
                match self.words.try_reserve(additional) {
                    Ok(()) => {
                        self.capacity = total;
                        Ok(())
                    },
                    Err(_) => Err(AllocError::AllocFailed),
                }
            },
        }
    }

    #[inline]
    fn unchecked_push(&mut self, word: Word) {
        self.words.push(word);
    }

    #[inline]
    fn as_slice(&self) -> (words: &[Word]) {
        self.words.as_slice()
    }

    #[inline]
    fn as_mut_slice(&mut self) -> (words: &mut [Word]) {
        self.words.as_mut_slice()
    }
}

} // verus!
