use ordered_containers::heap::Heap;
use ordered_containers::heap::MaxHeap;
use ordered_containers::heap::MinHeap;
use ordered_containers::order::Ascending;
use ordered_containers::order::Comparator;
use ordered_containers::order::Descending;

#[test]
fn test_empty_heap() {
    let mut heap = MaxHeap::new::<i32>();
    assert_eq!(heap.next(), None);
}

#[test]
fn test_min_heap() {
    let mut heap = MinHeap::new();
    heap.add(4);
    heap.add(2);
    heap.add(9);
    heap.add(11);
    assert_eq!(heap.len(), 4);
    assert_eq!(heap.next(), Some(2));
    assert_eq!(heap.next(), Some(4));
    assert_eq!(heap.next(), Some(9));
    heap.add(1);
    assert_eq!(heap.next(), Some(1));
}

#[test]
fn test_max_heap() {
    let mut heap = MaxHeap::new();
    heap.add(4);
    heap.add(2);
    heap.add(9);
    heap.add(11);
    assert_eq!(heap.len(), 4);
    assert_eq!(heap.next(), Some(11));
    assert_eq!(heap.next(), Some(9));
    assert_eq!(heap.next(), Some(4));
    heap.add(1);
    assert_eq!(heap.next(), Some(2));
}

#[test]
fn test_new_heap_is_empty() {
    let heap = MinHeap::new::<u64>();
    assert_eq!(heap.len(), 0);
    assert!(heap.is_empty());
    let heap = Heap::<i32, Ascending>::new_min();
    assert_eq!(heap.len(), 0);
    assert!(heap.is_empty());
    let heap = Heap::<i32, Descending>::new_max();
    assert_eq!(heap.len(), 0);
    assert!(heap.is_empty());
}

#[test]
fn test_new_min_and_new_max_order() {
    let mut low = Heap::new_min();
    let mut high = Heap::new_max();
    for v in [3, 1, 2] {
        low.add(v);
        high.add(v);
    }
    assert_eq!(low.next(), Some(1));
    assert_eq!(low.next(), Some(2));
    assert_eq!(low.next(), Some(3));
    assert_eq!(low.next(), None);
    assert_eq!(high.next(), Some(3));
    assert_eq!(high.next(), Some(2));
    assert_eq!(high.next(), Some(1));
    assert_eq!(high.next(), None);
}

#[test]
fn test_second_add_of_smaller_value_moves_it_to_the_root() {
    let mut heap = MinHeap::new();
    heap.add(4);
    heap.add(2);
    assert_eq!(heap.next(), Some(2));
    assert_eq!(heap.next(), Some(4));
}

#[test]
fn test_extraction_moves_the_right_child_up() {
    let mut heap = MinHeap::new();
    for v in [1, 9, 2, 10, 11, 3] {
        heap.add(v);
    }
    assert_eq!(heap.next(), Some(1));
    assert_eq!(heap.next(), Some(2));
    assert_eq!(heap.next(), Some(3));
    assert_eq!(heap.next(), Some(9));
    assert_eq!(heap.next(), Some(10));
    assert_eq!(heap.next(), Some(11));
    assert_eq!(heap.next(), None);
}

#[test]
fn test_len_follows_adds_and_extractions() {
    let mut heap = MaxHeap::new();
    assert_eq!(heap.len(), 0);
    for (i, v) in [5, 1, 8, 3, 8, 2].into_iter().enumerate() {
        heap.add(v);
        assert_eq!(heap.len(), i + 1);
        assert!(!heap.is_empty());
    }
    let mut left = 6;
    while left > 0 {
        assert!(heap.next().is_some());
        left -= 1;
        assert_eq!(heap.len(), left);
    }
    assert!(heap.is_empty());
    assert_eq!(heap.next(), None);
    assert_eq!(heap.len(), 0);
}

#[test]
fn test_drained_values_come_out_in_priority_order() {
    let values = [17, -3, 8, 8, 0, 42, -19, 5, 23, 1, 8, -3, 64, 7];
    let mut low = MinHeap::new();
    let mut high = MaxHeap::new();
    for v in values {
        low.add(v);
        high.add(v);
    }
    let mut ascending = Vec::new();
    while let Some(v) = low.next() {
        ascending.push(v);
    }
    let mut descending = Vec::new();
    while let Some(v) = high.next() {
        descending.push(v);
    }
    let mut sorted = values.to_vec();
    sorted.sort();
    assert_eq!(ascending, sorted);
    sorted.reverse();
    assert_eq!(descending, sorted);
}

#[test]
fn test_heap_is_exhausted_after_len_extractions() {
    let mut heap = MinHeap::new();
    for v in [6, 5, 4, 3] {
        heap.add(v);
    }
    let n = heap.len();
    for _ in 0..n {
        assert!(heap.next().is_some());
    }
    assert!(heap.is_empty());
    assert_eq!(heap.next(), None);
    assert_eq!(heap.next(), None);
    assert_eq!(heap.len(), 0);
}

#[test]
fn test_heap_can_be_refilled_after_it_ran_empty() {
    let mut heap = MinHeap::new();
    heap.add(5);
    assert_eq!(heap.next(), Some(5));
    assert_eq!(heap.next(), None);
    heap.add(7);
    assert_eq!(heap.len(), 1);
    assert_eq!(heap.next(), Some(7));
    heap.add(9);
    heap.add(8);
    assert_eq!(heap.next(), Some(8));
    assert_eq!(heap.next(), Some(9));
    assert_eq!(heap.next(), None);
}

#[test]
fn test_interleaved_adds_and_extractions() {
    let mut heap = MaxHeap::new();
    heap.add(10);
    heap.add(30);
    assert_eq!(heap.next(), Some(30));
    heap.add(20);
    heap.add(5);
    assert_eq!(heap.next(), Some(20));
    heap.add(40);
    assert_eq!(heap.next(), Some(40));
    assert_eq!(heap.next(), Some(10));
    assert_eq!(heap.next(), Some(5));
    assert_eq!(heap.next(), None);
}

#[test]
fn test_heap_with_a_closure_as_priority() {
    let mut by_last_digit = Heap::new(|a: &u32, b: &u32| a % 10 < b % 10);
    for v in [25, 13, 48, 91, 70] {
        by_last_digit.add(v);
    }
    assert_eq!(by_last_digit.len(), 5);
    assert_eq!(by_last_digit.next(), Some(70));
    assert_eq!(by_last_digit.next(), Some(91));
    assert_eq!(by_last_digit.next(), Some(13));
    assert_eq!(by_last_digit.next(), Some(25));
    assert_eq!(by_last_digit.next(), Some(48));
    assert_eq!(by_last_digit.next(), None);
}

#[test]
fn test_equal_priorities_all_come_out() {
    let mut heap = Heap::new(|a: &(u8, char), b: &(u8, char)| a.0 < b.0);
    heap.add((2, 'a'));
    heap.add((1, 'b'));
    heap.add((2, 'c'));
    heap.add((1, 'd'));
    let mut keys = Vec::new();
    let mut tags = Vec::new();
    while let Some((k, t)) = heap.next() {
        keys.push(k);
        tags.push(t);
    }
    assert_eq!(keys, vec![1, 1, 2, 2]);
    tags.sort();
    assert_eq!(tags, vec!['a', 'b', 'c', 'd']);
}

#[test]
fn test_heap_of_strings() {
    let mut heap = MinHeap::new();
    heap.add(String::from("pear"));
    heap.add(String::from("apple"));
    heap.add(String::from("quince"));
    assert_eq!(heap.next(), Some(String::from("apple")));
    assert_eq!(heap.next(), Some(String::from("pear")));
    assert_eq!(heap.next(), Some(String::from("quince")));
    assert_eq!(heap.next(), None);
}

#[test]
fn test_ascending_and_descending_relations() {
    assert!(Ascending.higher(&1, &2));
    assert!(!Ascending.higher(&2, &1));
    assert!(!Ascending.higher(&2, &2));
    assert!(Descending.higher(&2, &1));
    assert!(!Descending.higher(&1, &2));
    assert!(!Descending.higher(&2, &2));
}

#[test]
fn test_closure_relation_is_the_closure() {
    let longer = |a: &&str, b: &&str| a.len() > b.len();
    assert!(longer.higher(&"three", &"two"));
    assert!(!longer.higher(&"two", &"three"));
    assert!(!longer.higher(&"two", &"six"));
}
