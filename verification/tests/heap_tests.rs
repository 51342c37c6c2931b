use heavykeeper::heap::MinHeap;

#[test]
fn test_heap() {
    let data = vec![3, 2, 1, 0];
    let heap = MinHeap::from_vec(data);
    for i in heap.list() {
        println!("{}", i);
    }
}

#[test]
fn test_heap_push_pop() {
    let data = vec![3, 2, 1, 0];
    let mut heap = MinHeap::new();
    for data in data {
        println!("{data}");
        heap.push(data);
    }

    while let Some(i) = heap.pop() {
        println!("pop: {}", i);
    }
}

#[test]
fn test_heap_replace_with() {
    let data = vec![3, 2, 1, 0];
    let mut heap = MinHeap::from_vec(data);

    heap.replace_with_any(|x| {
        if x == 1 {
            (x * 10, true)
        } else {
            (x, false)
        }
    });
    for i in heap.list() {
        println!("{}", i);
    }
}

#[test]
fn test_heap_invariant_after_ops() {
    let mut heap = MinHeap::new();
    for v in [7, 3, 9, 1, 5, 1, 8] {
        heap.push(v);
    }
    assert_eq!(heap.len(), 7);
    assert_eq!(heap.pop(), Some(1));
    assert_eq!(heap.pop(), Some(1));
    heap.push(0);
    assert_eq!(heap.pop(), Some(0));
    let mut prev = i32::MIN;
    let mut count = 0;
    while let Some(v) = heap.pop() {
        assert!(prev <= v);
        prev = v;
        count += 1;
    }
    assert_eq!(count, 5);
}

#[test]
fn test_heap_pop_sorted() {
    let mut heap = MinHeap::from_vec(vec![9, -4, 7, 0, 7, 2, -4, 11]);
    let mut out = Vec::new();
    while let Some(v) = heap.pop() {
        out.push(v);
    }
    assert_eq!(out, vec![-4, -4, 0, 2, 7, 7, 9, 11]);
}

#[test]
fn test_heap_remove() {
    let mut heap = MinHeap::from_vec(vec![5, 1, 4, 2]);
    let removed = heap.remove(0);
    assert!(removed.is_some());
    let mut rest = Vec::new();
    while let Some(v) = heap.pop() {
        rest.push(v);
    }
    assert_eq!(rest.len(), 3);
    for w in rest.windows(2) {
        assert!(w[0] <= w[1]);
    }
}

#[test]
fn test_heap_replace_with_rebuilds() {
    let mut heap = MinHeap::from_vec(vec![1, 2, 3, 4]);
    // negating every element reverses the order completely
    heap.replace_with(|x: i32| -x);
    assert_eq!(heap.pop(), Some(-4));
    assert_eq!(heap.pop(), Some(-3));
    assert_eq!(heap.pop(), Some(-2));
    assert_eq!(heap.pop(), Some(-1));
    assert_eq!(heap.pop(), None);
}

#[test]
fn test_heap_peek_is_min() {
    let mut heap = MinHeap::new();
    heap.push(4);
    assert_eq!(heap.peek(), Some(&4));
    heap.push(6);
    assert_eq!(heap.peek(), Some(&4));
    heap.push(2);
    assert_eq!(heap.peek(), Some(&2));
}
