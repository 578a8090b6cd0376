use mpint::memory::{AllocError, BoundedWords, IAllocError, Word, WordArray, WordVec};

#[test]
fn word_has_sixty_four_bits() {
    assert_eq!(Word::BITS, 64);
    assert_eq!(Word(7), Word(7));
    assert!(Word(1) < Word(2));
}

#[test]
fn empty_storage_has_no_room() {
    let words = WordVec::empty();
    assert_eq!(words.len(), 0);
    assert_eq!(words.capacity(), 0);
    assert!(words.as_slice().is_empty());
}

#[test]
fn with_capacity_gives_room_and_no_words() {
    let words = WordVec::with_capacity(4).unwrap();
    assert_eq!(words.len(), 0);
    assert!(words.capacity() >= 4);
}

#[test]
fn with_capacity_reports_failure() {
    assert_eq!(WordVec::with_capacity(usize::MAX).err(), Some(AllocError::AllocFailed));
}

#[test]
fn reserve_makes_room_beyond_the_length() {
    let mut words = WordVec::empty();
    words.push(Word(1)).unwrap();
    words.push(Word(2)).unwrap();
    words.reserve(3).unwrap();
    assert!(words.capacity() >= 5);
    assert_eq!(words.len(), 2);
    assert_eq!(words.as_slice(), &[Word(1), Word(2)]);
}

#[test]
fn reserve_never_shrinks() {
    let mut words = WordVec::with_capacity(8).unwrap();
    words.reserve(1).unwrap();
    assert!(words.capacity() >= 8);
}

#[test]
fn reserve_overflow_is_reported() {
    let mut words = WordVec::empty();
    words.push(Word(1)).unwrap();
    assert_eq!(words.reserve(usize::MAX), Err(AllocError::CapacityOverflow));
    assert_eq!(words.len(), 1);
    assert_eq!(words.as_slice(), &[Word(1)]);
}

#[test]
fn reserve_failure_leaves_storage_alone() {
    let mut words = WordVec::empty();
    words.push(Word(9)).unwrap();
    let room = words.capacity();
    assert_eq!(words.reserve(usize::MAX / 2), Err(AllocError::AllocFailed));
    assert_eq!(words.capacity(), room);
    assert_eq!(words.as_slice(), &[Word(9)]);
}

#[test]
fn unchecked_push_fills_reserved_room() {
    let mut words = WordVec::empty();
    words.reserve(2).unwrap();
    let room = words.capacity();
    words.unchecked_push(Word(10));
    words.unchecked_push(Word(20));
    assert_eq!(words.as_slice(), &[Word(10), Word(20)]);
    assert_eq!(words.capacity(), room);
}

#[test]
fn clear_keeps_the_room() {
    let mut words = WordVec::with_capacity(3).unwrap();
    words.push(Word(5)).unwrap();
    let room = words.capacity();
    words.clear();
    assert_eq!(words.len(), 0);
    assert_eq!(words.capacity(), room);
}

#[test]
fn mutable_slice_writes_through() {
    let mut words = WordVec::empty();
    words.push(Word(1)).unwrap();
    words.push(Word(2)).unwrap();
    words.as_mut_slice()[1] = Word(7);
    assert_eq!(words.as_slice(), &[Word(1), Word(7)]);
}

#[test]
fn overflow_error_is_distinguished() {
    assert_eq!(AllocError::capacity_arithmetic_overflow(), AllocError::CapacityOverflow);
    assert_ne!(AllocError::capacity_arithmetic_overflow(), AllocError::AllocFailed);
}

#[test]
fn bounded_storage_starts_without_room() {
    let words = BoundedWords::<4>::empty();
    assert_eq!(words.len(), 0);
    assert_eq!(words.capacity(), 0);
}

#[test]
fn bounded_storage_refuses_room_beyond_limit() {
    assert_eq!(BoundedWords::<2>::with_capacity(3).err(), Some(AllocError::AllocFailed));
    let words = BoundedWords::<2>::with_capacity(2).unwrap();
    assert_eq!(words.capacity(), 2);
}

#[test]
fn bounded_storage_refuses_third_word() {
    let mut words = BoundedWords::<2>::empty();
    words.push(Word(1)).unwrap();
    words.push(Word(2)).unwrap();
    assert_eq!(words.push(Word(3)), Err(AllocError::AllocFailed));
    assert_eq!(words.len(), 2);
    assert_eq!(words.as_slice(), &[Word(1), Word(2)]);
}

#[test]
fn bounded_storage_reports_overflow() {
    let mut words = BoundedWords::<2>::empty();
    words.push(Word(1)).unwrap();
    assert_eq!(words.reserve(usize::MAX), Err(AllocError::CapacityOverflow));
}

#[test]
fn default_storage_is_empty() {
    let words = WordVec::default();
    assert_eq!(words.len(), 0);
    assert_eq!(words.capacity(), 0);
    let bounded = BoundedWords::<3>::default();
    assert_eq!(bounded.len(), 0);
    assert_eq!(bounded.capacity(), 0);
}

#[test]
fn clone_copies_words_and_has_room_for_them() {
    let mut words = WordVec::with_capacity(10).unwrap();
    words.push(Word(4)).unwrap();
    words.push(Word(5)).unwrap();
    let copy = words.clone();
    assert_eq!(copy.as_slice(), &[Word(4), Word(5)]);
    assert_eq!(copy.capacity(), 2);
    words.as_mut_slice()[0] = Word(0);
    assert_eq!(copy.as_slice(), &[Word(4), Word(5)]);
}

#[test]
fn bounded_clone_copies_words() {
    let mut words = BoundedWords::<4>::with_capacity(4).unwrap();
    words.push(Word(1)).unwrap();
    let copy = words.clone();
    assert_eq!(copy.as_slice(), &[Word(1)]);
    assert_eq!(copy.capacity(), 1);
}

#[test]
fn reserve_with_room_succeeds_within_bound() {
    let mut words = BoundedWords::<2>::with_capacity(2).unwrap();
    words.push(Word(1)).unwrap();
    assert_eq!(words.reserve(1), Ok(()));
    assert_eq!(words.capacity(), 2);
    assert_eq!(words.reserve(2), Err(AllocError::AllocFailed));
    assert_eq!(words.capacity(), 2);
}

#[test]
fn push_into_reserved_room_succeeds() {
    let mut words = BoundedWords::<3>::with_capacity(3).unwrap();
    assert_eq!(words.push(Word(1)), Ok(()));
    assert_eq!(words.push(Word(2)), Ok(()));
    assert_eq!(words.push(Word(3)), Ok(()));
    assert_eq!(words.as_slice(), &[Word(1), Word(2), Word(3)]);
    assert_eq!(words.capacity(), 3);
    assert_eq!(words.push(Word(4)), Err(AllocError::AllocFailed));
}

#[test]
fn reserve_grows_capacity_to_what_was_asked() {
    let mut words = WordVec::with_capacity(2).unwrap();
    words.push(Word(1)).unwrap();
    words.reserve(1).unwrap();
    assert_eq!(words.capacity(), 2);
    words.reserve(4).unwrap();
    assert_eq!(words.capacity(), 5);
}
