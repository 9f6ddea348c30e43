use fifteen::minheap::initialize;

#[test]
fn test_push() {
    let mut heap = initialize();

    heap.push(12, 3);
    heap.push(4, 100);
    heap.push(5, 101);
    heap.push(1, 30);

    assert_eq!(heap.pop(), (1, 30));
    assert_eq!(heap.pop(), (4, 100));
    assert_eq!(heap.pop(), (5, 101));
    assert_eq!(heap.pop(), (12, 3));
}

#[test]
fn empty_heap_reports_empty() {
    let mut heap = initialize();
    assert!(heap.is_empty());
    heap.push(7, 0);
    assert!(!heap.is_empty());
    assert_eq!(heap.pop(), (7, 0));
    assert!(heap.is_empty());
}

#[test]
fn pops_come_out_sorted_with_equal_keys() {
    let mut heap = initialize();
    let keys = [5, 3, 5, 1, 3, 9, 0, -2, 9, 1];
    for (i, k) in keys.iter().enumerate() {
        heap.push(*k, i);
    }
    let mut out = Vec::new();
    while !heap.is_empty() {
        out.push(heap.pop());
    }
    let got: Vec<i32> = out.iter().map(|p| p.0).collect();
    assert_eq!(got, vec![-2, 0, 1, 1, 3, 3, 5, 5, 9, 9]);
    let mut payloads: Vec<usize> = out.iter().map(|p| p.1).collect();
    payloads.sort();
    assert_eq!(payloads, (0..10).collect::<Vec<usize>>());
    for (k, i) in out {
        assert_eq!(keys[i], k);
    }
}

#[test]
fn permutation_of_distinct_keys_sorts() {
    let mut heap = initialize();
    for i in 0..101usize {
        let k = ((i * 37) % 101) as i32;
        heap.push(k, i);
    }
    for expected in 0..101i32 {
        let (k, i) = heap.pop();
        assert_eq!(k, expected);
        assert_eq!(((i * 37) % 101) as i32, k);
    }
    assert!(heap.is_empty());
}

#[test]
fn interleaved_pushes_and_pops_keep_the_least_first() {
    let mut heap = initialize();
    heap.push(10, 1);
    heap.push(20, 2);
    assert_eq!(heap.pop(), (10, 1));
    heap.push(15, 3);
    heap.push(i32::MIN, 4);
    heap.push(i32::MAX, 5);
    assert_eq!(heap.pop(), (i32::MIN, 4));
    assert_eq!(heap.pop(), (15, 3));
    assert_eq!(heap.pop(), (20, 2));
    assert_eq!(heap.pop(), (i32::MAX, 5));
    assert!(heap.is_empty());
}
