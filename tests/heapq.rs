use learn_rust_ds::heapq::HeapQ;

#[test]
fn heapq_empty_after_creation() {
    let heap = HeapQ::<i32>::new();
    assert_eq!(heap.len(), 0);
    assert_eq!(heap.is_empty(), true);
}

#[test]
fn length_after_push() {
    let mut heap = HeapQ::new();
    heap.push(100);
    assert_eq!(heap.len(), 1);
    assert_eq!(heap.is_empty(), false);
}

#[test]
fn correct_top_pop_after_push() {
    let mut heap = HeapQ::new();
    assert_eq!(heap.top(), None);
    heap.push(1);
    assert_eq!(*heap.top().unwrap(), 1);
    heap.push(3);
    assert_eq!(*heap.top().unwrap(), 3);

    // check 3 (the greatest element) is still top after pushing 2
    heap.push(2);
    assert_eq!(*heap.top().unwrap(), 3);
}

#[test]
fn pops_come_out_in_descending_order() {
    let mut heap = HeapQ::new();
    for v in [5, 1, 9, 3, 7, 9, 0, 4] {
        heap.push(v);
    }
    let mut out = Vec::new();
    while let Some(v) = heap.pop() {
        out.push(v);
    }
    assert_eq!(out, vec![9, 9, 7, 5, 4, 3, 1, 0]);
    assert!(heap.is_empty());
    assert_eq!(heap.pop(), None);
}

#[test]
fn top_after_many_shuffled_inserts() {
    // a fixed shuffle of 0..10
    let numbers: Vec<i32> = vec![7, 2, 9, 0, 5, 3, 8, 1, 6, 4];
    let mut heap = HeapQ::new();
    for &number in numbers.iter() {
        heap.push(number);
    }

    for i in (0..10).rev() {
        assert_eq!(*heap.top().unwrap(), i);
        assert_eq!(heap.len(), (i + 1) as usize);
        assert_eq!(heap.pop().unwrap(), i);
    }
}
