use tiered_vector::CyclicArray;

#[test]
fn test_cyclic_array_zero_capacity() {
    let sut = CyclicArray::<usize>::new(0);
    assert_eq!(sut.len(), 0);
    assert_eq!(sut.capacity(), 0);
    assert!(sut.is_empty());
    assert!(sut.is_full());
}

#[test]
fn test_cyclic_array_forward() {
    let mut sut = CyclicArray::<usize>::new(10);
    assert_eq!(sut.len(), 0);
    assert_eq!(sut.capacity(), 10);
    assert!(sut.is_empty());
    assert!(!sut.is_full());

    // add until full
    for value in 0..sut.capacity() {
        sut.push_back(value);
    }
    assert_eq!(sut.len(), 10);
    assert_eq!(sut.capacity(), 10);
    assert!(!sut.is_empty());
    assert!(sut.is_full());

    assert_eq!(sut.get(1), Some(&1));
    assert_eq!(sut[1], 1);
    assert_eq!(sut.get(3), Some(&3));
    assert_eq!(sut[3], 3);
    assert_eq!(sut.get(6), Some(&6));
    assert_eq!(sut[6], 6);
    assert_eq!(sut.get(9), Some(&9));
    assert_eq!(sut[9], 9);
    assert_eq!(sut.get(10), None);

    // remove until empty
    for index in 0..10 {
        let maybe = sut.pop_front();
        assert!(maybe.is_some());
        let value = maybe.unwrap();
        assert_eq!(value, index);
    }
    assert_eq!(sut.len(), 0);
    assert_eq!(sut.capacity(), 10);
    assert!(sut.is_empty());
    assert!(!sut.is_full());
}

#[test]
fn test_cyclic_array_backward() {
    let mut sut = CyclicArray::<usize>::new(10);
    assert_eq!(sut.len(), 0);
    assert_eq!(sut.capacity(), 10);
    assert!(sut.is_empty());
    assert!(!sut.is_full());

    // add until full
    for value in 0..sut.capacity() {
        sut.push_front(value);
    }
    assert_eq!(sut.len(), 10);
    assert_eq!(sut.capacity(), 10);
    assert!(!sut.is_empty());
    assert!(sut.is_full());

    // everything is backwards
    assert_eq!(sut.get(1), Some(&8));
    assert_eq!(sut[1], 8);
    assert_eq!(sut.get(3), Some(&6));
    assert_eq!(sut[3], 6);
    assert_eq!(sut.get(6), Some(&3));
    assert_eq!(sut[6], 3);
    assert_eq!(sut.get(9), Some(&0));
    assert_eq!(sut[9], 0);
    assert_eq!(sut.get(10), None);

    // remove until empty
    for index in 0..10 {
        let maybe = sut.pop_back();
        assert!(maybe.is_some());
        let value = maybe.unwrap();
        assert_eq!(value, index);
    }
    assert_eq!(sut.len(), 0);
    assert_eq!(sut.capacity(), 10);
    assert!(sut.is_empty());
    assert!(!sut.is_full());
}

#[test]
fn test_cyclic_array_clear_and_reuse() {
    let mut sut = CyclicArray::<String>::new(10);
    for _ in 0..7 {
        let value = ulid::Ulid::new().to_string();
        sut.push_back(value);
    }
    sut.clear();
    for _ in 0..7 {
        let value = ulid::Ulid::new().to_string();
        sut.push_back(value);
    }
    sut.clear();
    for _ in 0..7 {
        let value = ulid::Ulid::new().to_string();
        sut.push_back(value);
    }
    sut.clear();
}

#[test]
fn test_cyclic_array_drop_partial() {
    let mut sut = CyclicArray::<String>::new(10);
    for _ in 0..7 {
        let value = ulid::Ulid::new().to_string();
        sut.push_back(value);
    }
    drop(sut);
}

#[test]
fn test_cyclic_array_drop_full() {
    let mut sut = CyclicArray::<String>::new(10);
    for _ in 0..sut.capacity() {
        let value = ulid::Ulid::new().to_string();
        sut.push_back(value);
    }
    drop(sut);
}

#[test]
fn test_cyclic_array_drop_wrapped() {
    let mut sut = CyclicArray::<String>::new(10);
    // push enough to almost fill the buffer
    for _ in 0..7 {
        let value = ulid::Ulid::new().to_string();
        sut.push_back(value);
    }
    // empty the buffer
    while !sut.is_empty() {
        sut.pop_front();
    }
    // push enough to wrap around to the start of the physical buffer
    for _ in 0..7 {
        let value = ulid::Ulid::new().to_string();
        sut.push_back(value);
    }
    drop(sut);
}

#[test]
fn test_cyclic_array_wrapping() {
    let mut sut = CyclicArray::<usize>::new(10);
    // push enough to almost fill the buffer
    for value in 0..7 {
        sut.push_back(value);
    }
    // empty the buffer
    while !sut.is_empty() {
        sut.pop_front();
    }
    // push enough to wrap around to the start of the physical buffer
    for value in 0..7 {
        sut.push_back(value);
    }

    assert_eq!(sut.get(1), Some(&1));
    assert_eq!(sut[1], 1);
    assert_eq!(sut.get(3), Some(&3));
    assert_eq!(sut[3], 3);
    assert_eq!(sut.get(6), Some(&6));
    assert_eq!(sut[6], 6);
    assert_eq!(sut.get(8), None);

    // ensure values are removed correctly
    for value in 0..7 {
        assert_eq!(sut.pop_front(), Some(value));
    }
    assert_eq!(sut.len(), 0);
    assert_eq!(sut.capacity(), 10);
    assert!(sut.is_empty());
    assert!(!sut.is_full());
}

#[test]
fn test_cyclic_array_random_insert_remove() {
    let size = 128;
    let mut sut = CyclicArray::<usize>::new(size);
    for value in 1..=size {
        sut.push_back(value);
    }
    for _ in 0..1024 {
        let from = rand::random_range(0..size);
        let to = rand::random_range(0..size - 1);
        let value = sut.remove(from);
        sut.insert(to, value);
    }
    let mut sorted: Vec<usize> = vec![];
    while let Some(value) = sut.pop_front() {
        sorted.push(value);
    }
    sorted.sort();
    for (idx, value) in (1..=size).enumerate() {
        assert_eq!(sorted[idx], value);
    }
}

#[test]
fn test_cyclic_array_insert_head() {
    let mut sut = CyclicArray::<usize>::new(4);
    sut.insert(0, 4);
    sut.insert(0, 3);
    sut.insert(0, 2);
    sut.insert(0, 1);
    assert_eq!(sut.len(), 4);
    assert_eq!(sut[0], 1);
    assert_eq!(sut[1], 2);
    assert_eq!(sut[2], 3);
    assert_eq!(sut[3], 4);
}

#[test]
fn test_cyclic_array_insert_empty() {
    let mut sut = CyclicArray::<usize>::new(4);
    sut.insert(0, 1);
    assert_eq!(sut[0], 1);
    assert_eq!(sut.len(), 1);
}

#[test]
fn test_cyclic_array_insert_empty_head_not_zero() {
    let mut sut = CyclicArray::<usize>::new(4);
    sut.push_back(1);
    sut.push_back(2);
    sut.pop_front();
    sut.pop_front();
    sut.insert(0, 1);
    assert_eq!(sut[0], 1);
    assert_eq!(sut.len(), 1);
}

#[test]
fn test_cyclic_array_insert_loop() {
    let mut sut = CyclicArray::<usize>::new(4);
    for value in 0..100 {
        sut.insert(0, value);
        sut.insert(0, value);
        sut.insert(0, value);
        sut.pop_front();
        sut.pop_front();
        sut.pop_front();
    }
    assert_eq!(sut.len(), 0);
    sut.push_back(1);
    sut.push_back(2);
    sut.push_back(3);
    sut.push_back(4);
    assert_eq!(sut.len(), 4);
    assert_eq!(sut[0], 1);
    assert_eq!(sut[1], 2);
    assert_eq!(sut[2], 3);
    assert_eq!(sut[3], 4);
}

#[test]
fn test_cyclic_array_insert_1() {
    let mut sut = CyclicArray::<usize>::new(4);
    sut.push_back(1);
    sut.push_back(2);
    sut.insert(1, 3);
    assert_eq!(sut.len(), 3);
    assert_eq!(sut[0], 1);
    assert_eq!(sut[1], 3);
    assert_eq!(sut[2], 2);
}

#[test]
fn test_cyclic_array_insert_2() {
    let mut sut = CyclicArray::<usize>::new(4);
    sut.push_back(1);
    sut.push_back(1);
    sut.push_back(1);
    sut.push_back(1);
    sut.pop_front();
    sut.pop_front();
    sut.pop_front();
    sut.push_back(2);
    sut.insert(1, 3);
    assert_eq!(sut.len(), 3);
    assert_eq!(sut[0], 1);
    assert_eq!(sut[1], 3);
    assert_eq!(sut[2], 2);
}

#[test]
fn test_cyclic_array_insert_3() {
    let mut sut = CyclicArray::<usize>::new(4);
    sut.push_back(1);
    sut.push_back(1);
    sut.push_back(1);
    sut.push_back(2);
    sut.pop_front();
    sut.pop_front();
    sut.insert(1, 3);
    assert_eq!(sut.len(), 3);
    assert_eq!(sut[0], 1);
    assert_eq!(sut[1], 3);
    assert_eq!(sut[2], 2);
}

#[test]
fn test_cyclic_array_insert_4() {
    let mut sut = CyclicArray::<usize>::new(4);
    sut.push_back(1);
    sut.push_back(1);
    sut.push_back(1);
    sut.push_back(1);
    sut.pop_front();
    sut.pop_front();
    sut.pop_front();
    sut.push_back(2);
    sut.insert(0, 3);
    assert_eq!(sut.len(), 3);
    assert_eq!(sut[0], 3);
    assert_eq!(sut[1], 1);
    assert_eq!(sut[2], 2);
}

#[test]
fn test_cyclic_array_insert_start() {
    let mut sut = CyclicArray::<usize>::new(4);
    sut.push_back(1);
    sut.push_back(2);
    sut.insert(0, 3);
    assert_eq!(sut.len(), 3);
    assert_eq!(sut[0], 3);
    assert_eq!(sut[1], 1);
    assert_eq!(sut[2], 2);
}

#[test]
fn test_cyclic_array_insert_end() {
    let mut sut = CyclicArray::<usize>::new(4);
    sut.push_back(1);
    sut.push_back(2);
    sut.insert(2, 3);
    assert_eq!(sut.len(), 3);
    assert_eq!(sut[0], 1);
    assert_eq!(sut[1], 2);
    assert_eq!(sut[2], 3);
}

#[test]
fn test_cyclic_array_insert_end_wrap() {
    let mut sut = CyclicArray::<usize>::new(4);
    sut.push_back(1);
    sut.push_back(2);
    sut.push_back(3);
    sut.push_back(4);
    sut.pop_front();
    sut.insert(3, 1);
    assert_eq!(sut.len(), 4);
    assert_eq!(sut[0], 2);
    assert_eq!(sut[1], 3);
    assert_eq!(sut[2], 4);
    assert_eq!(sut[3], 1);
}

#[test]
fn test_cyclic_array_remove_start() {
    let mut sut = CyclicArray::<usize>::new(4);
    sut.push_back(1);
    sut.push_back(2);
    sut.push_back(3);
    sut.remove(0);
    assert_eq!(sut.len(), 2);
    assert_eq!(sut[0], 2);
    assert_eq!(sut[1], 3);
}

#[test]
fn test_cyclic_array_remove_1() {
    let mut sut = CyclicArray::<usize>::new(4);
    sut.push_back(1);
    sut.push_back(1);
    sut.push_back(2);
    sut.push_back(3);
    sut.pop_front();
    sut.remove(1);
    assert_eq!(sut.len(), 2);
    assert_eq!(sut[0], 1);
    assert_eq!(sut[1], 3);
}

#[test]
fn test_cyclic_array_remove_2() {
    let mut sut = CyclicArray::<usize>::new(4);
    sut.push_back(1);
    sut.push_back(1);
    sut.push_back(2);
    sut.push_back(3);
    sut.pop_front();
    sut.remove(0);
    assert_eq!(sut.len(), 2);
    assert_eq!(sut[0], 2);
    assert_eq!(sut[1], 3);
}

#[test]
fn test_cyclic_array_remove_3() {
    let mut sut = CyclicArray::<usize>::new(4);
    sut.push_back(1);
    sut.push_back(1);
    sut.push_back(1);
    sut.push_back(1);
    sut.pop_front();
    sut.pop_front();
    sut.pop_front();
    sut.push_back(2);
    sut.push_back(3);
    sut.remove(1);
    assert_eq!(sut.len(), 2);
    assert_eq!(sut[0], 1);
    assert_eq!(sut[1], 3);
}

#[test]
fn test_cyclic_array_remove_start_full() {
    let mut sut = CyclicArray::<usize>::new(4);
    sut.push_back(1);
    sut.push_back(2);
    sut.push_back(3);
    sut.push_back(4);
    sut.remove(0);
    assert_eq!(sut.len(), 3);
    assert_eq!(sut[0], 2);
    assert_eq!(sut[1], 3);
    assert_eq!(sut[2], 4);
}

#[test]
fn test_cyclic_array_remove_middle_full() {
    let mut sut = CyclicArray::<usize>::new(4);
    sut.push_back(1);
    sut.push_back(2);
    sut.push_back(3);
    sut.push_back(4);
    sut.remove(2);
    assert_eq!(sut.len(), 3);
    assert_eq!(sut[0], 1);
    assert_eq!(sut[1], 2);
    assert_eq!(sut[2], 4);
}

#[test]
fn test_cyclic_array_remove_end() {
    let mut sut = CyclicArray::<usize>::new(4);
    sut.push_back(1);
    sut.push_back(2);
    sut.push_back(3);
    sut.remove(2);
    assert_eq!(sut.len(), 2);
    assert_eq!(sut[0], 1);
    assert_eq!(sut[1], 2);
}

#[test]
fn test_cyclic_array_remove_end_full() {
    let mut sut = CyclicArray::<usize>::new(4);
    sut.push_back(1);
    sut.push_back(2);
    sut.push_back(3);
    sut.push_back(4);
    sut.remove(3);
    assert_eq!(sut.len(), 3);
    assert_eq!(sut[0], 1);
    assert_eq!(sut[1], 2);
    assert_eq!(sut[2], 3);
}

#[test]
fn test_cyclic_array_remove_end_wrap() {
    let mut sut = CyclicArray::<usize>::new(4);
    sut.push_back(1);
    sut.push_back(2);
    sut.push_back(3);
    sut.push_back(4);
    sut.pop_front();
    sut.push_back(5);
    assert_eq!(sut.len(), 4);
    assert_eq!(sut[0], 2);
    assert_eq!(sut[1], 3);
    assert_eq!(sut[2], 4);
    assert_eq!(sut[3], 5);
    sut.remove(3);
    assert_eq!(sut.len(), 3);
    assert_eq!(sut[0], 2);
    assert_eq!(sut[1], 3);
    assert_eq!(sut[2], 4);
}

#[test]
fn test_cyclic_array_push_pop_remove() {
    let mut sut = CyclicArray::<usize>::new(4);
    sut.push_back(7);
    sut.push_back(7);
    sut.push_back(7);
    sut.push_back(8);
    sut.pop_front();
    sut.pop_front();
    sut.push_back(10);
    sut.push_back(11);
    sut.remove(2);
    assert_eq!(sut.len(), 3);
    assert_eq!(sut[0], 7);
    assert_eq!(sut[1], 8);
    assert_eq!(sut[2], 11);
}

#[test]
fn test_cyclic_array_push_pop_insert() {
    let mut sut = CyclicArray::<usize>::new(4);
    sut.push_back(11);
    sut.push_back(11);
    sut.push_back(11);
    sut.push_back(12);
    sut.pop_front();
    sut.pop_front();
    sut.push_back(4);
    sut.insert(2, 3);
    assert_eq!(sut.len(), 4);
    assert_eq!(sut[0], 11);
    assert_eq!(sut[1], 12);
    assert_eq!(sut[2], 3);
    assert_eq!(sut[3], 4);
}

#[test]
fn test_cyclic_array_from_string() {
    let mut sut = CyclicArray::<String>::new(4);
    sut.push_back(ulid::Ulid::new().to_string());
    sut.push_back(ulid::Ulid::new().to_string());
    sut.push_back(ulid::Ulid::new().to_string());
    let copy = CyclicArray::<String>::from(8, sut);
    assert_eq!(copy.len(), 3);
    assert_eq!(copy.capacity(), 8);
    assert!(!copy[0].is_empty());
    assert!(!copy[1].is_empty());
    assert!(!copy[2].is_empty());
}

#[test]
fn test_cyclic_array_from_smaller_1() {
    let mut sut = CyclicArray::<usize>::new(4);
    sut.push_back(1);
    sut.push_back(2);
    sut.push_back(3);
    let copy = CyclicArray::<usize>::from(8, sut);
    assert_eq!(copy.len(), 3);
    assert_eq!(copy.capacity(), 8);
    assert_eq!(copy[0], 1);
    assert_eq!(copy[1], 2);
    assert_eq!(copy[2], 3);
}

#[test]
fn test_cyclic_array_from_smaller_2() {
    let mut sut = CyclicArray::<usize>::new(4);
    sut.push_back(1);
    sut.push_back(1);
    sut.push_back(1);
    sut.push_back(2);
    sut.pop_front();
    sut.pop_front();
    sut.push_back(3);
    sut.push_back(4);
    let copy = CyclicArray::<usize>::from(8, sut);
    assert_eq!(copy.len(), 4);
    assert_eq!(copy.capacity(), 8);
    assert_eq!(copy[0], 1);
    assert_eq!(copy[1], 2);
    assert_eq!(copy[2], 3);
    assert_eq!(copy[3], 4);
}

#[test]
fn test_cyclic_array_from_larger_1() {
    let mut sut = CyclicArray::<usize>::new(8);
    sut.push_back(1);
    sut.push_back(2);
    sut.push_back(3);
    let copy = CyclicArray::<usize>::from(4, sut);
    assert_eq!(copy.len(), 3);
    assert_eq!(copy.capacity(), 4);
    assert_eq!(copy[0], 1);
    assert_eq!(copy[1], 2);
    assert_eq!(copy[2], 3);
}

#[test]
fn test_cyclic_array_from_larger_2() {
    let mut sut = CyclicArray::<usize>::new(8);
    for _ in 0..7 {
        sut.push_back(1);
    }
    sut.push_back(2);
    for _ in 0..6 {
        sut.pop_front();
    }
    sut.push_back(3);
    let copy = CyclicArray::<usize>::from(4, sut);
    assert_eq!(copy.len(), 3);
    assert_eq!(copy.capacity(), 4);
    assert_eq!(copy[0], 1);
    assert_eq!(copy[1], 2);
    assert_eq!(copy[2], 3);
}

#[test]
fn test_cyclic_array_combine_string() {
    let mut a = CyclicArray::<String>::new(4);
    a.push_back(ulid::Ulid::new().to_string());
    a.push_back(ulid::Ulid::new().to_string());
    a.push_back(ulid::Ulid::new().to_string());
    let mut b = CyclicArray::<String>::new(4);
    b.push_back(ulid::Ulid::new().to_string());
    b.push_back(ulid::Ulid::new().to_string());
    b.push_back(ulid::Ulid::new().to_string());
    let sut = CyclicArray::combine(a, b);
    assert_eq!(sut.len(), 6);
    assert_eq!(sut.capacity(), 8);
    for i in 0..6 {
        assert!(!sut[i].is_empty());
    }
}

#[test]
fn test_cyclic_array_combine_1_1() {
    let mut a = CyclicArray::<usize>::new(4);
    a.push_back(1);
    a.push_back(2);
    a.push_back(3);
    let mut b = CyclicArray::<usize>::new(4);
    b.push_back(4);
    b.push_back(5);
    b.push_back(6);
    let sut = CyclicArray::combine(a, b);
    assert_eq!(sut.len(), 6);
    assert_eq!(sut.capacity(), 8);
    for i in 0..6 {
        assert_eq!(sut[i], i + 1);
    }
}

#[test]
fn test_cyclic_array_combine_1_2() {
    let mut a = CyclicArray::<usize>::new(4);
    a.push_back(1);
    a.push_back(2);
    a.push_back(3);
    let mut b = CyclicArray::<usize>::new(4);
    b.push_back(4);
    b.push_back(4);
    b.push_back(4);
    b.push_back(5);
    b.pop_front();
    b.pop_front();
    b.push_back(6);
    let sut = CyclicArray::combine(a, b);
    assert_eq!(sut.len(), 6);
    assert_eq!(sut.capacity(), 8);
    for i in 0..6 {
        assert_eq!(sut[i], i + 1);
    }
}

#[test]
fn test_cyclic_array_combine_2_1() {
    let mut a = CyclicArray::<usize>::new(4);
    a.push_back(1);
    a.push_back(1);
    a.push_back(1);
    a.push_back(2);
    a.pop_front();
    a.pop_front();
    a.push_back(3);
    let mut b = CyclicArray::<usize>::new(4);
    b.push_back(4);
    b.push_back(5);
    b.push_back(6);
    let sut = CyclicArray::combine(a, b);
    assert_eq!(sut.len(), 6);
    assert_eq!(sut.capacity(), 8);
    for i in 0..6 {
        assert_eq!(sut[i], i + 1);
    }
}

#[test]
fn test_cyclic_array_combine_2_2() {
    let mut a = CyclicArray::<usize>::new(4);
    a.push_back(1);
    a.push_back(1);
    a.push_back(1);
    a.push_back(2);
    a.pop_front();
    a.pop_front();
    a.push_back(3);
    let mut b = CyclicArray::<usize>::new(4);
    b.push_back(4);
    b.push_back(4);
    b.push_back(4);
    b.push_back(5);
    b.pop_front();
    b.pop_front();
    b.push_back(6);
    let sut = CyclicArray::combine(a, b);
    assert_eq!(sut.len(), 6);
    assert_eq!(sut.capacity(), 8);
    for i in 0..6 {
        assert_eq!(sut[i], i + 1);
    }
}

#[test]
fn test_cyclic_array_split_empty() {
    let big = CyclicArray::<usize>::new(8);
    let (a, b) = big.split();
    assert_eq!(a.len(), 0);
    assert_eq!(a.capacity(), 4);
    assert_eq!(b.len(), 0);
    assert_eq!(b.capacity(), 4);
}

#[test]
fn test_cyclic_array_split_string() {
    let mut big = CyclicArray::<String>::new(8);
    for _ in 0..8 {
        big.push_back(ulid::Ulid::new().to_string());
    }
    let (a, b) = big.split();
    assert_eq!(a.len(), 4);
    assert_eq!(a.capacity(), 4);
    assert!(!a[0].is_empty());
    assert!(!a[1].is_empty());
    assert!(!a[2].is_empty());
    assert!(!a[3].is_empty());
    assert_eq!(b.len(), 4);
    assert_eq!(b.capacity(), 4);
    assert!(!b[0].is_empty());
    assert!(!b[1].is_empty());
    assert!(!b[2].is_empty());
    assert!(!b[3].is_empty());
}

#[test]
fn test_cyclic_array_split_full() {
    let mut big = CyclicArray::<usize>::new(8);
    for value in 1..=8 {
        big.push_back(value);
    }
    let (a, b) = big.split();
    assert_eq!(a.len(), 4);
    assert_eq!(a.capacity(), 4);
    assert_eq!(a[0], 1);
    assert_eq!(a[1], 2);
    assert_eq!(a[2], 3);
    assert_eq!(a[3], 4);
    assert_eq!(b.len(), 4);
    assert_eq!(b.capacity(), 4);
    assert_eq!(b[0], 5);
    assert_eq!(b[1], 6);
    assert_eq!(b[2], 7);
    assert_eq!(b[3], 8);
}

#[test]
fn test_cyclic_array_split_partial_whole() {
    let mut big = CyclicArray::<usize>::new(8);
    for value in 1..=6 {
        big.push_back(value);
    }
    let (a, b) = big.split();
    assert_eq!(a.len(), 4);
    assert_eq!(a.capacity(), 4);
    assert_eq!(a[0], 1);
    assert_eq!(a[1], 2);
    assert_eq!(a[2], 3);
    assert_eq!(a[3], 4);
    assert_eq!(b.len(), 2);
    assert_eq!(b.capacity(), 4);
    assert_eq!(b[0], 5);
    assert_eq!(b[1], 6);
}

#[test]
fn test_cyclic_array_split_partial_split() {
    let mut big = CyclicArray::<usize>::new(8);
    for value in 1..=6 {
        big.push_back(value);
    }
    big.pop_front();
    big.pop_front();
    big.pop_front();
    big.push_back(7);
    big.push_back(8);
    big.push_back(9);
    let (a, b) = big.split();
    assert_eq!(a.len(), 4);
    assert_eq!(a.capacity(), 4);
    assert_eq!(a[0], 4);
    assert_eq!(a[1], 5);
    assert_eq!(a[2], 6);
    assert_eq!(a[3], 7);
    assert_eq!(b.len(), 2);
    assert_eq!(b.capacity(), 4);
    assert_eq!(b[0], 8);
    assert_eq!(b[1], 9);
}

#[test]
fn test_cyclic_array_get_mut() {
    let mut sut = CyclicArray::<usize>::new(4);
    sut.push_back(1);
    sut.push_back(2);
    sut.push_back(3);
    sut.push_back(4);
    if let Some(value) = sut.get_mut(1) {
        *value = 12;
    } else {
        panic!("get_mut() returned None")
    }
    if let Some(value) = sut.get_mut(2) {
        *value = 13;
    } else {
        panic!("get_mut() returned None")
    }
    assert_eq!(sut[0], 1);
    assert_eq!(sut[1], 12);
    assert_eq!(sut[2], 13);
    assert_eq!(sut[3], 4);
}
