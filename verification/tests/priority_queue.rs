use huffman::priority_queue::MaxHeap;
use std::cmp::Ordering;
use std::collections::hash_map::DefaultHasher;
use std::hash::{Hash, Hasher};

fn sort(list: &[i32]) -> Vec<i32> {
    let mut priority_queue = MaxHeap::new();
    for elem in list {
        priority_queue.push(*elem)
    }
    let mut sorted = vec![];
    while let Some(elem) = priority_queue.next() {
        sorted.push(elem)
    }
    sorted.reverse();
    sorted
}

#[derive(Debug)]
struct KeyedValue(&'static str);
impl KeyedValue {
    fn get_key(&self) -> usize {
        self.0.len()
    }
}
impl PartialEq for KeyedValue {
    fn eq(&self, other: &Self) -> bool {
        self.get_key() == other.get_key()
    }
}
impl Eq for KeyedValue {}
impl Ord for KeyedValue {
    fn cmp(&self, other: &Self) -> Ordering {
        self.get_key().cmp(&other.get_key())
    }
}
impl PartialOrd for KeyedValue {
    fn partial_cmp(&self, other: &Self) -> Option<Ordering> {
        Some(self.cmp(other))
    }
}

#[test]
fn priority_queue_test_empty() {
    assert_eq!(sort(&[]), vec![]);
}

#[test]
fn priority_queue_test_small() {
    assert_eq!(sort(&[1, 2, 3]), vec![1, 2, 3]);
    assert_eq!(sort(&[1, 3, 2]), vec![1, 2, 3]);
    assert_eq!(sort(&[2, 1, 3]), vec![1, 2, 3]);
    assert_eq!(sort(&[2, 3, 1]), vec![1, 2, 3]);
    assert_eq!(sort(&[3, 1, 2]), vec![1, 2, 3]);
    assert_eq!(sort(&[3, 2, 1]), vec![1, 2, 3]);
}

#[test]
fn priority_queue_test_large() {
    let mut priority_queue = MaxHeap::new();
    assert_eq!(priority_queue.len(), 0);
    assert!(priority_queue.is_empty());
    let mut inserted_values = vec![];
    let mut insert_value = 12345u16;
    let mut hasher = DefaultHasher::new();
    for _ in 0..1000000 {
        priority_queue.push(insert_value);
        inserted_values.push(insert_value);
        insert_value.hash(&mut hasher);
        insert_value = hasher.finish() as u16;
    }
    assert_eq!(priority_queue.len(), 1000000);
    assert!(!priority_queue.is_empty());
    inserted_values.sort_unstable();
    while priority_queue.len() > 500000 {
        assert_eq!(priority_queue.next(), inserted_values.pop())
    }
    for _ in 0..500000 {
        priority_queue.push(insert_value);
        inserted_values.push(insert_value);
        insert_value.hash(&mut hasher);
        insert_value = hasher.finish() as u16;
    }
    assert_eq!(priority_queue.len(), 1000000);
    assert!(!priority_queue.is_empty());
    inserted_values.sort_unstable();
    for value in inserted_values.into_iter().rev() {
        assert_eq!(priority_queue.next(), Some(value))
    }
    assert_eq!(priority_queue.len(), 0);
    assert!(priority_queue.is_empty());
    assert_eq!(priority_queue.next(), None);
}

#[test]
fn test_duplicates() {
    let mut priority_queue = MaxHeap::new();
    for _ in 0..10 {
        priority_queue.push(1);
        priority_queue.push(2);
        priority_queue.push(3);
    }
    for _ in 0..10 {
        assert_eq!(priority_queue.next(), Some(3))
    }
    for _ in 0..10 {
        assert_eq!(priority_queue.next(), Some(2))
    }
    for _ in 0..10 {
        assert_eq!(priority_queue.next(), Some(1))
    }
    for _ in 0..10 {
        assert_eq!(priority_queue.next(), None)
    }
}

#[test]
fn test_floats() {
    let mut priority_queue = MaxHeap::new();
    for i in 0..100 {
        priority_queue.push((i % 10 * 10 + i / 10) as f64)
    }
    for i in (0..100).rev() {
        assert_eq!(priority_queue.next(), Some(i as f64))
    }
    assert_eq!(priority_queue.next(), None)
}

#[test]
fn test_keyed() {
    let mut priority_queue = MaxHeap::new();
    priority_queue.push(KeyedValue("zero"));
    priority_queue.push(KeyedValue("one"));
    priority_queue.push(KeyedValue("2"));
    priority_queue.push(KeyedValue("three"));
    priority_queue.push(KeyedValue("eleven"));
    assert_eq!(priority_queue.next(), Some(KeyedValue("eleven")));
    assert_eq!(priority_queue.next(), Some(KeyedValue("three")));
    assert_eq!(priority_queue.next(), Some(KeyedValue("zero")));
    assert_eq!(priority_queue.next(), Some(KeyedValue("one")));
    assert_eq!(priority_queue.next(), Some(KeyedValue("2")));
    assert_eq!(priority_queue.next(), None);
}

#[test]
fn test_debug() {
    let mut priority_queue = MaxHeap::new();
    assert_eq!(priority_queue.to_tree_string(), "(empty)");
    priority_queue.push(1);
    assert_eq!(priority_queue.to_tree_string(), "1");
    priority_queue.push(2);
    assert_eq!(
        priority_queue.to_tree_string().split('\n').collect::<Vec<_>>(),
        ["2", "/", "1",]
    );
    priority_queue.push(3);
    assert_eq!(
        priority_queue.to_tree_string().split('\n').collect::<Vec<_>>(),
        [" 3 ", "/ \\", "1 2",]
    );
    priority_queue.push(4);
    assert_eq!(
        priority_queue.to_tree_string().split('\n').collect::<Vec<_>>(),
        [" 4 ", "/ \\", "3 2", "/", "1",]
    );
    priority_queue.push(5);
    assert_eq!(
        priority_queue.to_tree_string().split('\n').collect::<Vec<_>>(),
        ["  5  ", " /  \\", " 4  2", "/ \\", "1 3",]
    );
    priority_queue.push(6);
    assert_eq!(
        priority_queue.to_tree_string().split('\n').collect::<Vec<_>>(),
        ["  6  ", " /  \\", " 4  5", "/ \\ /", "1 3 2",]
    );
    priority_queue.push(7);
    assert_eq!(
        priority_queue.to_tree_string().split('\n').collect::<Vec<_>>(),
        ["   7   ", " /   \\ ", " 4   6 ", "/ \\ / \\", "1 3 2 5",]
    );
}

#[test]
fn test_peek_tracks_maximum() {
    let mut priority_queue = MaxHeap::new();
    assert_eq!(priority_queue.peek(), None);
    priority_queue.push(4);
    assert_eq!(priority_queue.peek(), Some(&4));
    priority_queue.push(9);
    assert_eq!(priority_queue.peek(), Some(&9));
    priority_queue.push(7);
    assert_eq!(priority_queue.peek(), Some(&9));
    assert_eq!(priority_queue.next(), Some(9));
    assert_eq!(priority_queue.peek(), Some(&7));
}

#[test]
fn test_interleaved_pops_non_increasing() {
    // Across any interleaving of pushes and pops, the values popped while
    // the heap only shrinks come out in non-increasing order.
    let mut priority_queue = MaxHeap::new();
    for value in [5, 1, 9, 3, 7, 7, 2] {
        priority_queue.push(value);
    }
    assert_eq!(priority_queue.next(), Some(9));
    for value in [8, 0, 7] {
        priority_queue.push(value);
    }
    let mut popped = vec![];
    while let Some(value) = priority_queue.next() {
        popped.push(value);
    }
    assert_eq!(popped, vec![8, 7, 7, 7, 5, 3, 2, 1, 0]);
}
