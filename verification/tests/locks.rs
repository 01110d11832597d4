use elude::lock::{IndexError, Lock};
use elude::multex::{
    either_at, one_at, At1, At2, AtN, DynamicAt, Guard, Key, Multex, Multex16, Multex32, Multex8,
    Multex8N, One1, One2, StaticAt,
};

#[test]
fn locks_different_indices() {
    let mut multex = Multex8::new([1u8, 2u8, 3u8, 4u8]);
    let key1 = AtN::<_, [usize; 1]>::new([0]).unwrap();
    let key2 = AtN::<_, [usize; 1]>::new([1]).unwrap();
    let guard1 = multex.lock_with(&key1, false);
    let guard2 = multex.lock_with(&key2, false);
    let Some(place1) = guard1.value[0] else {
        panic!()
    };
    let Some(place2) = guard2.value[0] else {
        panic!()
    };
    assert_eq!(*multex.item(&guard1, place1).unwrap(), 1u8);
    assert_eq!(*multex.item(&guard2, place2).unwrap(), 2u8);
    assert!(multex.item(&guard1, place2).is_none());
}

#[test]
fn locks_all_without_panic() {
    let mut multex = Multex32::new(Vec::new());
    let guard = multex.lock();
    multex.open(&guard).push(1);
    assert_eq!(multex.into_inner(), vec![1]);
}

#[test]
fn taken_resources_are_refused_or_left_out() {
    let mut multex = Multex16::new(vec!['a', 'b', 'c']);
    let one = AtN::<_, [usize; 2]>::new([0, 1]).unwrap();
    let two = AtN::<_, [usize; 2]>::new([1, 2]).unwrap();
    let guard = multex.try_lock_with(&one, false).unwrap();
    assert_eq!(guard.value, [Some(0), Some(1)]);
    assert!(multex.try_lock_with(&two, false).is_none());
    assert!(multex.try_lock().is_none());
    let part = multex.try_lock_with(&two, true).unwrap();
    assert_eq!(part.value, [None, Some(2)]);
    assert_eq!(part.mask(), 0b100);
    assert!(multex.is_locked_with(&two, false));
    assert!(multex.is_locked(true));
    assert!(!multex.is_locked(false));
    assert!(multex.release(guard));
    assert!(!multex.is_locked_with(&one, true));
    assert!(multex.is_locked_with(&two, true));
    assert!(!multex.is_locked_with(&two, false));
    *multex.item(&part, 2).unwrap() = 'z';
    assert!(multex.unlock_with(part.mask()));
    assert!(!multex.is_locked(true));
    assert_eq!(*multex.as_ptr(), vec!['a', 'b', 'z']);
}

#[test]
fn indices_without_an_item_are_locked_but_not_handed_out() {
    let mut multex: Multex<_, u64> = Multex::new([1u8, 2u8]);
    let key = AtN::<_, (usize, usize)>::new((1, 40)).unwrap();
    let guard = multex.lock_with(&key, false);
    assert_eq!(guard.value, (Some(1), None));
    assert_eq!(guard.mask(), 1 << 1 | 1 << 40);
    assert!(multex.unlock());
    assert!(!multex.is_locked(true));
}

#[test]
fn wrong_indices_are_reported() {
    assert_eq!(AtN::<u8, [usize; 2]>::new([3, 8]).err(), Some(IndexError::OutOfBounds(8)));
    assert_eq!(AtN::<u8, [usize; 3]>::new([3, 4, 3]).err(), Some(IndexError::Duplicate(3)));
    assert_eq!(AtN::<u16, (usize,)>::new((16,)).err(), Some(IndexError::OutOfBounds(16)));
    assert_eq!(AtN::<u32, (usize, usize)>::new((5, 5)).err(), Some(IndexError::Duplicate(5)));
    assert_eq!(At1::<u8, 9>::new().err(), Some(IndexError::OutOfBounds(9)));
    assert_eq!(At2::<u8, 2, 2>::new().err(), Some(IndexError::Duplicate(2)));
    assert_eq!(AtN::<[u8; 2], [usize; 1]>::new([16]).err(), Some(IndexError::OutOfBounds(16)));
    assert_eq!(AtN::<[u8; 2], [usize; 2]>::new([9, 9]).err(), Some(IndexError::Duplicate(1)));
}

#[test]
fn rows_of_locks_are_taken_as_a_whole() {
    let mut multex = Multex8N::<Vec<u32>, 3>::new((0..24).collect());
    let low = AtN::<[u8; 3], [usize; 2]>::new([3, 12]).unwrap();
    let high = AtN::<[u8; 3], [usize; 3]>::new([1, 12, 20]).unwrap();
    let guard = multex.lock_with(&low, false);
    assert_eq!(guard.mask(), [0b1000, 0b1_0000, 0]);
    assert!(multex.try_lock_with(&high, false).is_none());
    assert!(!multex.is_locked_with(&AtN::<[u8; 3], [usize; 1]>::new([1]).unwrap(), true));
    let part = multex.lock_with(&high, true);
    assert_eq!(part.value, [Some(1), None, Some(20)]);
    assert!(multex.release(guard));
    assert!(multex.release(part));
    let guard = multex.lock();
    assert_eq!(guard.mask(), [255, 255, 255]);
    assert!(multex.is_locked(false));
}

#[test]
fn failed_rows_count_a_turn() {
    let mut state = <[u8; 2]>::free();
    assert_eq!(<[u8; 2]>::lock(&mut state, [1, 1], false), Some([1, 1]));
    assert_eq!(state.turn, 0);
    assert_eq!(<[u8; 2]>::lock(&mut state, [2, 1], false), None);
    assert_eq!(state.words, [1, 1]);
    assert_eq!(state.turn, 1);
    assert!(!<[u8; 2]>::unlock(&mut state, [1, 0], false));
    assert!(<[u8; 2]>::unlock(&mut state, [0, 0], true));
    assert_eq!(state.words, [0, 1]);
    assert_eq!(state.turn, 2);
    assert!(!u8::unlock(&mut 3, 0, true));
    assert_eq!(<[u8; 2]>::bits(), 16);
    assert_eq!(usize::bits(), usize::BITS as usize);
}

#[test]
fn guards_are_mapped() {
    let mut multex = Multex8::new([1u8, 2u8]);
    let key = AtN::<_, (usize,)>::new((1,)).unwrap();
    let guard = multex.lock_with(&key, false);
    let guard = Guard::map(guard, |value: (Option<usize>,)| value.0.map(|place| place + 10));
    assert_eq!(guard.value, Some(11));
    assert_eq!(guard.mask(), 2);
    assert_eq!(multex.get_mut(&key), (Some(1),));
}

#[test]
fn parts_of_tuples_are_locked_by_name() {
    let mut multex = Multex8::new((1u8, 2u16));
    let both = At2::<u8, 1, 0>::new().unwrap();
    let second = At1::<u8, 1>::new().unwrap();
    let guard = multex.lock_with(&both, false);
    assert_eq!(guard.value, (Some(1), Some(0)));
    assert!(multex.try_lock_with(&second, false).is_none());
    *StaticAt::<1>::static_at(multex.as_mut_ptr()) += 1;
    assert_eq!(*multex.as_ptr(), (1, 3));
    assert_eq!(Key::<(u8, u16), u8>::mask(&second), 2);

    let mut pair = (1u8, 2u16);
    match either_at(&mut pair, 0).unwrap() {
        One2::_1(part) => *part += 1,
        One2::_2(part) => *part += 2,
    }
    match either_at(&mut pair, 1).unwrap() {
        One2::_1(part) => *part += 1,
        One2::_2(part) => *part += 2,
    }
    assert_eq!(pair, (2, 4));
    assert!(either_at(&mut pair, 2).is_none());
    let mut single = (5,);
    let One1::_1(part) = one_at(&mut single, 0).unwrap();
    *part += 1;
    assert_eq!(single, (6,));
    assert!(one_at(&mut single, 1).is_none());
    let mut list = vec![1, 2];
    *list.dynamic_at(1).unwrap() = 7;
    assert!(list.dynamic_at(2).is_none());
    assert_eq!(list, vec![1, 7]);
}

#[test]
fn multex_boba() {
    let mut multex = Multex8::new((1u8, 2u16));
    let key1 = At1::<_, 1>::new().unwrap();
    let key2 = At2::<_, 1, 0>::new().unwrap();
    let key3 = AtN::<u8, [usize; 2]>::new([0, 1]).unwrap();
    let key4 = AtN::<u8, (usize, usize)>::new((0, 1)).unwrap();

    let guard1 = multex.lock_with(&key1, false);
    assert_eq!(guard1.value, (Some(1),));
    *StaticAt::<1>::static_at(multex.as_mut_ptr()) += 1;
    assert!(multex.try_lock_with(&key2, false).is_none());
    multex.release(guard1);

    let guard2 = multex.lock_with(&key2, false);
    assert_eq!(guard2.value, (Some(1), Some(0)));
    *StaticAt::<0>::static_at(multex.as_mut_ptr()) += 1;
    let mask3 = <AtN<u8, [usize; 2]> as Key<Vec<u8>, u8>>::mask(&key3);
    let mask4 = <AtN<u8, (usize, usize)> as Key<Vec<u8>, u8>>::mask(&key4);
    assert_eq!(mask3, guard2.mask());
    assert_eq!(mask4, guard2.mask());
    match either_at(multex.as_mut_ptr(), 0).unwrap() {
        One2::_1(part) => *part += 1,
        One2::_2(part) => *part += 2,
    }
    match either_at(multex.as_mut_ptr(), 0).unwrap() {
        One2::_1(part) => *part += 1,
        One2::_2(part) => *part += 2,
    }
    multex.release(guard2);
    assert!(!multex.is_locked(true));
    assert_eq!(multex.into_inner(), (4, 3));
}

#[test]
fn items_are_found_in_every_collection() {
    assert!(().reaches(usize::MAX));
    assert_eq!(().dynamic_at(3), Some(&mut ()));
    let mut array = [1, 2, 3];
    assert_eq!(array.dynamic_at(2), Some(&mut 3));
    assert_eq!(array.dynamic_at(3), None);
    let slice: &mut [i32] = &mut array;
    *slice.dynamic_at(0).unwrap() = 4;
    assert!(!slice.reaches(3));
    assert_eq!(slice.dynamic_at(3), None);
    let mut borrowed = &mut array;
    *<&mut [i32; 3] as DynamicAt>::dynamic_at(&mut borrowed, 1).unwrap() = 5;
    assert_eq!(array, [4, 5, 3]);
    let mut boxed = Box::new([6, 7]);
    *<Box<[i32; 2]> as DynamicAt>::dynamic_at(&mut boxed, 1).unwrap() = 8;
    assert!(<Box<[i32; 2]> as DynamicAt>::reaches(&boxed, 1));
    assert!(!<Box<[i32; 2]> as DynamicAt>::reaches(&boxed, 2));
    assert_eq!(*boxed, [6, 8]);
    let mut boxed: Box<[i32]> = vec![9, 10].into_boxed_slice();
    *<Box<[i32]> as DynamicAt>::dynamic_at(&mut boxed, 0).unwrap() = 11;
    assert_eq!(<Box<[i32]> as DynamicAt>::dynamic_at(&mut boxed, 2), None);
    assert_eq!(*boxed, [11, 10]);

    let mut multex = Multex8::new(boxed);
    let key = AtN::<_, [usize; 2]>::new([0, 2]).unwrap();
    let guard = multex.lock_with(&key, false);
    assert_eq!(guard.value, [Some(0), None]);
    assert_eq!(*multex.item(&guard, 0).unwrap(), 11);
}
