use static_arena::{AllocError, SVector, StaticAllocator};

#[test]
fn vector_push_remove_get_pop() {
    let mut arena = StaticAllocator::new();
    let mut v: SVector<i32> = SVector::new(&mut arena, 3).unwrap();
    assert_eq!(v.push_back(10), Ok(()));
    assert_eq!(v.push_back(20), Ok(()));
    assert_eq!(v.push_back(30), Ok(()));
    v.remove(0);
    assert_eq!(v.size(), 2);
    assert_eq!(v.get(0), Some(&20));
    assert_eq!(v.get(1), Some(&30));
    assert_eq!(v.get(2), None);
    v.pop();
    assert_eq!(v.size(), 1);
    assert_eq!(v.get(0), Some(&20));
}

#[test]
fn vector_push_past_capacity_fails() {
    let mut arena = StaticAllocator::new();
    let mut v: SVector<u64> = SVector::new(&mut arena, 2).unwrap();
    assert_eq!(v.push_back(1), Ok(()));
    assert_eq!(v.size(), 1);
    assert_eq!(v.push_back(2), Ok(()));
    assert_eq!(v.size(), 2);
    assert_eq!(v.push_back(3), Err(AllocError::CapacityOverflow));
    assert_eq!(v.size(), 2);
    assert_eq!(v.get(1), Some(&2));
    assert_eq!(v.capacity(), 2);
}

#[test]
fn vector_remove_keeps_order() {
    let mut arena = StaticAllocator::new();
    let mut v: SVector<u8> = SVector::new(&mut arena, 5).unwrap();
    for x in [1u8, 2, 3, 4, 5] {
        v.push_back(x).unwrap();
    }
    v.remove(1);
    let got: Vec<u8> = (0..v.size()).map(|i| *v.get(i).unwrap()).collect();
    assert_eq!(got, vec![1, 3, 4, 5]);
    v.remove(10);
    assert_eq!(v.size(), 4);
}

#[test]
fn vector_pop_equals_remove_last() {
    let mut arena = StaticAllocator::new();
    let mut a: SVector<u16> = SVector::new(&mut arena, 4).unwrap();
    let mut b: SVector<u16> = SVector::new(&mut arena, 4).unwrap();
    for x in [7u16, 8, 9] {
        a.push_back(x).unwrap();
        b.push_back(x).unwrap();
    }
    a.pop();
    let last = b.size() - 1;
    b.remove(last);
    assert_eq!(a.size(), b.size());
    for i in 0..a.size() {
        assert_eq!(a.get(i), b.get(i));
    }
    let mut e: SVector<u16> = SVector::new(&mut arena, 1).unwrap();
    e.pop();
    assert_eq!(e.size(), 0);
}

#[test]
fn vector_get_mut_writes_in_place() {
    let mut arena = StaticAllocator::new();
    let mut v: SVector<u32> = SVector::new(&mut arena, 2).unwrap();
    v.push_back(5).unwrap();
    if let Some(x) = v.get_mut(0) {
        *x = 6;
    }
    assert!(v.get_mut(1).is_none());
    assert_eq!(v.get(0), Some(&6));
}

#[test]
fn vector_region_reserved_and_released() {
    let mut arena = StaticAllocator::new();
    let v: SVector<u32> = SVector::new(&mut arena, 5).unwrap();
    assert_eq!(v.offset(), 0);
    assert_eq!(arena.group(0), Some(0b111));
    let w: SVector<u128> = SVector::new(&mut arena, 2).unwrap();
    assert_eq!(w.offset(), 4);
    assert_eq!(arena.group(0), Some(0b1111_0111));
    assert_eq!(v.release(&mut arena), Ok(()));
    assert_eq!(arena.group(0), Some(0b1111_0000));
    assert_eq!(w.release(&mut arena), Ok(()));
    assert_eq!(arena.group(0), Some(0));
}

#[test]
fn vector_too_large_is_exhausted() {
    let mut arena = StaticAllocator::new();
    let r: Result<SVector<u64>, AllocError> = SVector::new(&mut arena, 65);
    assert!(matches!(r, Err(AllocError::Exhausted)));
    assert_eq!(arena.group(0), Some(0));
}
