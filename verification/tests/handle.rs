use chunked_seq::handle::SharedSeq;
use std::sync::Arc;

fn collect(seq: &SharedSeq<i32>) -> Vec<i32> {
    let mut it = seq.iter();
    let mut out = Vec::new();
    while let Some(item) = it.next() {
        out.push(*item.value);
    }
    out
}

fn from_range(range: std::ops::Range<i32>) -> SharedSeq<i32> {
    let mut seq = SharedSeq::new();
    for i in range {
        seq.push_back_mut(Arc::new(i));
    }
    seq
}

#[test]
fn handle_starts_empty() {
    let seq: SharedSeq<i32> = SharedSeq::new();
    assert_eq!(seq.len(), 0);
    assert!(seq.is_empty());
    assert!(seq.pop_front().is_none());
    assert!(seq.pop_back().is_none());
    assert_eq!(collect(&seq), Vec::<i32>::new());
}

#[test]
fn handle_push_returns_a_new_version() {
    let empty: SharedSeq<i32> = SharedSeq::new();
    let one = empty.push_back(Arc::new(1));
    let two = one.push_back(Arc::new(2));
    let three = two.push_front(Arc::new(0));
    assert_eq!(collect(&empty), Vec::<i32>::new());
    assert_eq!(collect(&one), vec![1]);
    assert_eq!(collect(&two), vec![1, 2]);
    assert_eq!(collect(&three), vec![0, 1, 2]);
    assert_eq!(three.len(), 3);
    assert!(!three.is_empty());
}

#[test]
fn handle_pop_returns_a_new_version() {
    let seq = from_range(0..100);
    let (first, rest) = seq.pop_front().unwrap();
    assert_eq!(*first, 0);
    assert_eq!(collect(&rest), (1..100).collect::<Vec<i32>>());
    let (last, rest) = rest.pop_back().unwrap();
    assert_eq!(*last, 99);
    assert_eq!(collect(&rest), (1..99).collect::<Vec<i32>>());
    assert_eq!(collect(&seq), (0..100).collect::<Vec<i32>>());
    assert_eq!(seq.len(), 100);
}

#[test]
fn handle_changes_in_place() {
    let mut seq = from_range(0..1000);
    for i in 0..1000 {
        assert_eq!(seq.pop_front_mut().map(|v| *v), Some(i));
    }
    assert!(seq.is_empty());
    assert!(seq.pop_front_mut().is_none());
    for i in 0..1000 {
        seq.push_front_mut(Arc::new(i));
    }
    for i in 0..1000 {
        assert_eq!(seq.pop_back_mut().map(|v| *v), Some(i));
    }
    assert!(seq.is_empty());
    assert!(seq.pop_back_mut().is_none());
}

#[test]
fn handle_clone_is_untouched_by_changes_in_place() {
    let mut seq = from_range(0..200);
    let kept = seq.clone();
    let before = collect(&kept);
    seq.push_back_mut(Arc::new(200));
    assert_eq!(collect(&kept), before);
    seq.push_front_mut(Arc::new(-1));
    assert_eq!(collect(&kept), before);
    assert_eq!(seq.pop_front_mut().map(|v| *v), Some(-1));
    assert_eq!(seq.pop_front_mut().map(|v| *v), Some(0));
    assert_eq!(collect(&kept), before);
    assert_eq!(seq.pop_back_mut().map(|v| *v), Some(200));
    assert_eq!(seq.pop_back_mut().map(|v| *v), Some(199));
    assert_eq!(collect(&kept), before);
    seq.concat_mut(&kept);
    assert_eq!(collect(&kept), before);
    assert_eq!(kept.len(), 200);
    let mut expected: Vec<i32> = (1..199).collect();
    expected.extend(0..200);
    assert_eq!(collect(&seq), expected);
}

#[test]
fn handle_concat_leaves_both_operands() {
    let left = from_range(0..1000);
    let right = from_range(1000..2000);
    let both = left.concat(&right);
    assert_eq!(both.len(), 2000);
    assert_eq!(collect(&both), (0..2000).collect::<Vec<i32>>());
    assert_eq!(collect(&left), (0..1000).collect::<Vec<i32>>());
    assert_eq!(collect(&right), (1000..2000).collect::<Vec<i32>>());
    let mut rest = both;
    for i in 0..2000 {
        assert_eq!(rest.pop_front_mut().map(|v| *v), Some(i));
    }
    assert!(rest.is_empty());
}

#[test]
fn handle_concat_with_itself() {
    let seq = from_range(0..50);
    let twice = seq.concat(&seq);
    let mut expected: Vec<i32> = (0..50).collect();
    expected.extend(0..50);
    assert_eq!(collect(&twice), expected);
    assert_eq!(collect(&seq), (0..50).collect::<Vec<i32>>());
}

#[test]
fn handle_split_and_rejoin() {
    let seq = from_range(0..2000);
    let (a, b) = seq.split(1000);
    assert_eq!(a.len(), 1000);
    assert_eq!(b.len(), 1000);
    assert_eq!(collect(&a), (0..1000).collect::<Vec<i32>>());
    assert_eq!(collect(&b), (1000..2000).collect::<Vec<i32>>());
    let joined = a.concat(&b);
    assert_eq!(collect(&joined), (0..2000).collect::<Vec<i32>>());
    assert_eq!(collect(&seq), (0..2000).collect::<Vec<i32>>());
}

#[test]
fn handle_alternating_pushes_in_place() {
    let source: Vec<i32> = (0..10000).collect();
    let mut seq = SharedSeq::new();
    let mut front = true;
    for item in source.iter() {
        if front {
            seq.push_front_mut(Arc::new(*item));
        } else {
            seq.push_back_mut(Arc::new(*item));
        }
        front = !front;
    }
    let mut expected: Vec<i32> = source.iter().cloned().filter(|i| i % 2 == 0).rev().collect();
    expected.extend(source.iter().cloned().filter(|i| i % 2 == 1));
    assert_eq!(seq.len(), 10000);
    assert_eq!(collect(&seq), expected);
}

#[test]
fn handle_shares_elements_by_pointer() {
    let element = Arc::new(String::from("kept"));
    let seq = SharedSeq::new().push_back(element.clone());
    let copy = seq.clone();
    let (got, rest) = copy.pop_front().unwrap();
    assert!(Arc::ptr_eq(&got, &element));
    assert!(rest.is_empty());
    assert_eq!(seq.len(), 1);
}

#[test]
fn handle_from_a_list_of_pointers() {
    let items: Vec<Arc<i32>> = (0..300).map(Arc::new).collect();
    let seq = SharedSeq::from_iter(items.clone());
    assert_eq!(seq.len(), 300);
    assert_eq!(collect(&seq), (0..300).collect::<Vec<i32>>());
    let (first, _) = seq.pop_front().unwrap();
    assert!(Arc::ptr_eq(&first, &items[0]));
    let empty: SharedSeq<i32> = SharedSeq::from_iter(Vec::new());
    assert!(empty.is_empty());
    let other: SharedSeq<i32> = SharedSeq::default();
    assert!(other.is_empty());
}
