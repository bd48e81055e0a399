use bloomheap::heap::MinHeap;
use bloomheap::ConfigError;

#[test]
fn heap_test_basic() {
    let mut heap: MinHeap<usize, _> = MinHeap::new(|a: &usize, b: &usize| a.cmp(b), 4).unwrap();

    assert_eq!(heap.len(), 0);

    heap.insert(11);

    assert_eq!(heap.len(), 1);
    heap.insert(5);
    heap.insert(7);

    assert_eq!(heap.len(), 3);

    assert_eq!(heap.extract(), Some(5));
    assert_eq!(heap.len(), 2);
    assert_eq!(heap.extract(), Some(7));
    assert_eq!(heap.extract(), Some(11));
    assert_eq!(heap.extract(), None);
    assert_eq!(heap.len(), 0);
}

#[test]
fn heap_zero_fan_out_is_refused() {
    let r = MinHeap::new(|a: &u32, b: &u32| a.cmp(b), 0);
    assert_eq!(r.err(), Some(ConfigError::ZeroChildren));
}

#[test]
fn heap_extract_on_empty() {
    let mut heap = MinHeap::new(|a: &i64, b: &i64| a.cmp(b), 2).unwrap();
    assert_eq!(heap.extract(), None);
    assert_eq!(heap.len(), 0);
    heap.insert(-3);
    assert_eq!(heap.extract(), Some(-3));
    assert_eq!(heap.extract(), None);
    assert_eq!(heap.len(), 0);
}

fn drain_all(fan_out: usize, items: &[u32]) -> Vec<u32> {
    let mut heap = MinHeap::new(|a: &u32, b: &u32| a.cmp(b), fan_out).unwrap();
    for (k, x) in items.iter().enumerate() {
        heap.insert(*x);
        assert_eq!(heap.len(), k + 1);
    }
    let mut out = Vec::new();
    while let Some(x) = heap.extract() {
        out.push(x);
        assert_eq!(heap.len(), items.len() - out.len());
    }
    out
}

#[test]
fn heap_drains_sorted_for_each_fan_out() {
    let items = [9u32, 3, 14, 3, 0, 27, 8, 8, 1, 100, 42, 5, 5, 5, 19, 2, 77, 6];
    let mut expected = items.to_vec();
    expected.sort();
    for fan_out in 1..6 {
        assert_eq!(drain_all(fan_out, &items), expected);
    }
}

#[test]
fn heap_comparator_decides_order() {
    let mut heap = MinHeap::new(|a: &u32, b: &u32| b.cmp(a), 3).unwrap();
    for x in [4u32, 10, 1, 7] {
        heap.insert(x);
    }
    assert_eq!(heap.extract(), Some(10));
    assert_eq!(heap.extract(), Some(7));
    assert_eq!(heap.extract(), Some(4));
    assert_eq!(heap.extract(), Some(1));
    assert_eq!(heap.extract(), None);
}

#[test]
fn heap_ties_under_comparator() {
    let mut heap = MinHeap::new(|a: &(u32, u32), b: &(u32, u32)| a.0.cmp(&b.0), 2).unwrap();
    heap.insert((2, 0));
    heap.insert((1, 1));
    heap.insert((2, 2));
    heap.insert((1, 3));
    let mut keys = Vec::new();
    let mut tags = Vec::new();
    while let Some((k, t)) = heap.extract() {
        keys.push(k);
        tags.push(t);
    }
    assert_eq!(keys, vec![1, 1, 2, 2]);
    tags.sort();
    assert_eq!(tags, vec![0, 1, 2, 3]);
}
