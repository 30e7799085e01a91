use chunked_seq::iter::Iter;
use chunked_seq::raw_seq::RawSeq;

fn collect(seq: &RawSeq<i32>) -> Vec<i32> {
    let mut it = Iter::new(seq);
    let mut out = Vec::new();
    while let Some(item) = it.next() {
        out.push(item);
    }
    out
}

#[test]
fn push_and_pop_things() {
    let mut seq = RawSeq::new();
    for i in 0..1000 {
        seq.push_back(i);
    }
    for i in 0..1000 {
        assert_eq!(Some(i), seq.pop_front());
    }
    assert!(seq.is_empty());
    for i in 0..1000 {
        seq.push_front(i);
    }
    for i in 0..1000 {
        assert_eq!(Some(i), seq.pop_back());
    }
    assert!(seq.is_empty());
}

#[test]
fn split_min() {
    let vec = vec![
        0, 0, 0, 0, 0, 0, 0, 0, 0, 0, 0, 0, 0, 0, 0, 0, 0, 0, 0, 0, 0, 0, 0, 0, 0, 0, 0, 0, 0,
        0, 0, 0, 0, 0, 0, 0, 0, 0, 0, 0, 0, 0, 0, 0, 0, 0, 0, 0, 0, 0, 0, 0, 0, 0, 0, 0, 0, 0,
        0, 0, 0, 0, 0, 0, 0, 0, 0, 0, 0, 0, 0, -1, 0, 0, 0,
    ];
    let split_index = 2883023423041211622 % vec.len();
    let seq: RawSeq<i32> = RawSeq::from_iter(vec.iter().cloned().collect());
    let (seq1, seq2) = seq.split(split_index);
    assert_eq!(seq1.len(), split_index);
    assert_eq!(seq2.len(), seq.len() - split_index);
    let mut left = Iter::new(&seq1);
    let mut index = 0;
    while let Some(item) = left.next() {
        println!("left index {} item {} vs {}", index, vec[index], item);
        assert_eq!(vec[index], item);
        index += 1;
    }
    assert_eq!(index, split_index);
    let mut right = Iter::new(&seq2);
    let mut index = 0;
    while let Some(item) = right.next() {
        println!(
            "right index {} item {} vs {}",
            split_index + index,
            vec[split_index + index],
            item
        );
        assert_eq!(vec[split_index + index], item);
        index += 1;
    }
    assert_eq!(split_index + index, vec.len());
}

#[test]
fn new_is_empty() {
    let mut seq: RawSeq<i32> = RawSeq::new();
    assert_eq!(seq.len(), 0);
    assert!(seq.is_empty());
    assert_eq!(seq.pop_front(), None);
    assert_eq!(seq.pop_back(), None);
    assert_eq!(collect(&seq), Vec::<i32>::new());
}

#[test]
fn iteration_gives_back_what_was_collected() {
    for n in [0usize, 1, 31, 32, 33, 63, 64, 65, 95, 96, 97, 128, 129, 500, 999] {
        let vec: Vec<i32> = (0..n as i32).map(|x| x * 7 - 3).collect();
        let seq = RawSeq::from_iter(vec.clone());
        assert_eq!(seq.len(), vec.len());
        assert_eq!(seq.is_empty(), vec.is_empty());
        assert_eq!(collect(&seq), vec);
    }
}

#[test]
fn push_back_then_pop_front_is_fifo() {
    let mut seq = RawSeq::new();
    for i in 0..1000 {
        seq.push_back(i);
        assert_eq!(seq.len(), (i + 1) as usize);
    }
    for i in 0..1000 {
        assert_eq!(seq.pop_front(), Some(i));
    }
    assert!(seq.is_empty());
    assert_eq!(seq.pop_front(), None);
}

#[test]
fn push_front_then_pop_back_is_fifo() {
    let mut seq = RawSeq::new();
    for i in 0..1000 {
        seq.push_front(i);
    }
    for i in 0..1000 {
        assert_eq!(seq.pop_back(), Some(i));
    }
    assert!(seq.is_empty());
    assert_eq!(seq.pop_back(), None);
}

#[test]
fn push_front_keeps_reverse_order() {
    let mut seq = RawSeq::new();
    for i in 0..100 {
        seq.push_front(i);
    }
    let expected: Vec<i32> = (0..100).rev().collect();
    assert_eq!(collect(&seq), expected);
    for i in (0..100).rev() {
        assert_eq!(seq.pop_front(), Some(i));
    }
    assert!(seq.is_empty());
}

#[test]
fn pops_drain_from_the_other_end() {
    let mut seq = RawSeq::new();
    for i in 0..200 {
        seq.push_back(i);
    }
    for i in (0..200).rev() {
        assert_eq!(seq.pop_back(), Some(i));
        assert_eq!(seq.len(), i as usize);
    }
    assert!(seq.is_empty());
    for i in 0..200 {
        seq.push_front(i);
    }
    for i in (0..200).rev() {
        assert_eq!(seq.pop_front(), Some(i));
    }
    assert!(seq.is_empty());
}

#[test]
fn concat_then_pop_front() {
    let mut seq = RawSeq::from_iter((0..1000).collect());
    let other = RawSeq::from_iter((1000..2000).collect());
    seq.concat(other);
    assert_eq!(seq.len(), 2000);
    for i in 0..2000 {
        assert_eq!(seq.pop_front(), Some(i));
    }
    assert!(seq.is_empty());
}

#[test]
fn concat_iterates_to_both_in_order() {
    for (n, m) in [
        (0usize, 0usize),
        (0, 5),
        (5, 0),
        (1, 1),
        (10, 10),
        (32, 32),
        (33, 31),
        (64, 1),
        (1, 64),
        (100, 200),
        (97, 129),
        (999, 999),
    ] {
        let u: Vec<i32> = (0..n as i32).collect();
        let v: Vec<i32> = (0..m as i32).map(|x| -x - 1).collect();
        let mut seq = RawSeq::from_iter(u.clone());
        seq.concat(RawSeq::from_iter(v.clone()));
        let mut expected = u.clone();
        expected.extend(v.iter().cloned());
        assert_eq!(seq.len(), n + m);
        assert_eq!(collect(&seq), expected);
    }
}

#[test]
fn concat_of_front_built_sequences() {
    let mut left = RawSeq::new();
    let mut right = RawSeq::new();
    for i in 0..150 {
        left.push_front(i);
        right.push_front(1000 + i);
    }
    left.concat(right);
    let mut expected: Vec<i32> = (0..150).rev().collect();
    expected.extend((1000..1150).rev());
    assert_eq!(left.len(), 300);
    assert_eq!(collect(&left), expected);
    for item in expected.iter().rev() {
        assert_eq!(left.pop_back(), Some(*item));
    }
    assert!(left.is_empty());
}

#[test]
fn concat_merges_small_middle_chunks() {
    let mut left = RawSeq::from_iter((0..100).collect());
    let small = RawSeq::from_iter((100..105).collect());
    left.concat(small);
    let tiny = RawSeq::from_iter((105..108).collect());
    left.concat(tiny);
    let expected: Vec<i32> = (0..108).collect();
    assert_eq!(left.len(), 108);
    assert_eq!(collect(&left), expected);
}

#[test]
fn split_in_the_middle() {
    let seq = RawSeq::from_iter((0..2000).collect());
    let (a, b) = seq.split(1000);
    assert_eq!(a.len(), 1000);
    assert_eq!(b.len(), 1000);
    assert_eq!(collect(&a), (0..1000).collect::<Vec<i32>>());
    assert_eq!(collect(&b), (1000..2000).collect::<Vec<i32>>());
    assert_eq!(collect(&seq), (0..2000).collect::<Vec<i32>>());
}

#[test]
fn split_at_every_index() {
    for n in [1usize, 2, 31, 32, 33, 64, 65, 97, 130, 300] {
        let vec: Vec<i32> = (0..n as i32).collect();
        let seq = RawSeq::from_iter(vec.clone());
        for i in 0..n {
            let (a, b) = seq.split(i);
            assert_eq!(a.len(), i);
            assert_eq!(b.len(), n - i);
            assert_eq!(collect(&a), vec[..i].to_vec());
            assert_eq!(collect(&b), vec[i..].to_vec());
        }
    }
}

#[test]
fn split_reaches_every_slot() {
    let mut seq = RawSeq::new();
    for i in 0..100 {
        seq.push_back(i);
    }
    for i in 1..=100 {
        seq.push_front(-i);
    }
    let expected: Vec<i32> = (-100..100).collect();
    assert_eq!(collect(&seq), expected);
    for i in 0..200 {
        let (a, b) = seq.split(i);
        assert_eq!(collect(&a), expected[..i].to_vec());
        assert_eq!(collect(&b), expected[i..].to_vec());
    }
}

#[test]
fn split_then_concat_gives_the_sequence_back() {
    let vec: Vec<i32> = (0..500).collect();
    let seq = RawSeq::from_iter(vec.clone());
    for i in [0usize, 1, 31, 32, 33, 100, 250, 498, 499] {
        let (mut a, b) = seq.split(i);
        a.concat(b);
        assert_eq!(a.len(), 500);
        assert_eq!(collect(&a), vec);
    }
}

#[test]
fn halves_of_a_split_can_be_changed() {
    let seq = RawSeq::from_iter((0..200).collect());
    let (mut a, mut b) = seq.split(70);
    a.push_back(-1);
    a.push_front(-2);
    b.push_back(-3);
    b.push_front(-4);
    let mut expected_a = vec![-2];
    expected_a.extend(0..70);
    expected_a.push(-1);
    let mut expected_b = vec![-4];
    expected_b.extend(70..200);
    expected_b.push(-3);
    assert_eq!(collect(&a), expected_a);
    assert_eq!(collect(&b), expected_b);
    assert_eq!(collect(&seq), (0..200).collect::<Vec<i32>>());
    assert_eq!(a.pop_back(), Some(-1));
    assert_eq!(b.pop_front(), Some(-4));
    assert_eq!(a.len(), 71);
    assert_eq!(b.len(), 131);
}

#[test]
fn a_clone_keeps_its_elements() {
    let mut seq = RawSeq::from_iter((0..100).collect());
    let kept = seq.clone();
    seq.push_back(100);
    seq.push_front(-1);
    assert_eq!(seq.pop_back(), Some(100));
    assert_eq!(seq.pop_back(), Some(99));
    seq.concat(RawSeq::from_iter((200..300).collect()));
    assert_eq!(kept.len(), 100);
    assert_eq!(collect(&kept), (0..100).collect::<Vec<i32>>());
    let mut expected = vec![-1];
    expected.extend(0..99);
    expected.extend(200..300);
    assert_eq!(collect(&seq), expected);
}

#[test]
fn a_traversal_keeps_its_version() {
    let mut seq = RawSeq::from_iter((0..50).collect());
    let mut it = Iter::new(&seq);
    assert_eq!(it.next(), Some(0));
    seq.push_front(-1);
    assert_eq!(seq.pop_back(), Some(49));
    let mut rest = Vec::new();
    while let Some(item) = it.next() {
        rest.push(item);
    }
    assert_eq!(rest, (1..50).collect::<Vec<i32>>());
    assert_eq!(it.next(), None);
    assert_eq!(it.next(), None);
}

#[test]
fn alternating_pushes_keep_their_order() {
    let mut seq = RawSeq::new();
    for i in 0..10000 {
        if i % 2 == 0 {
            seq.push_front(i);
        } else {
            seq.push_back(i);
        }
    }
    let mut expected: Vec<i32> = (0..10000).filter(|i| i % 2 == 0).rev().collect();
    expected.extend((0..10000).filter(|i| i % 2 == 1));
    assert_eq!(seq.len(), 10000);
    assert_eq!(collect(&seq), expected);
}

#[test]
fn mixed_operations_agree_with_a_vector() {
    let mut seq: RawSeq<i32> = RawSeq::new();
    let mut model: Vec<i32> = Vec::new();
    let mut state: u32 = 12345;
    for step in 0..5000 {
        state = state.wrapping_mul(1103515245).wrapping_add(12345);
        let choice = (state >> 16) % 6;
        match choice {
            0 | 1 => {
                seq.push_back(step);
                model.push(step);
            }
            2 | 3 => {
                seq.push_front(step);
                model.insert(0, step);
            }
            4 => {
                let expected = if model.is_empty() { None } else { Some(model.remove(0)) };
                assert_eq!(seq.pop_front(), expected);
            }
            _ => {
                assert_eq!(seq.pop_back(), model.pop());
            }
        }
        assert_eq!(seq.len(), model.len());
    }
    assert_eq!(collect(&seq), model);
}

fn next_random(state: &mut u64) -> u64 {
    *state = state.wrapping_mul(6364136223846793005).wrapping_add(1442695040888963407);
    *state >> 33
}

fn random_seq(state: &mut u64, base: i32) -> (RawSeq<i32>, Vec<i32>) {
    let mut seq = RawSeq::new();
    let mut model = Vec::new();
    let steps = next_random(state) % 150;
    for step in 0..steps {
        let value = base + step as i32;
        match next_random(state) % 5 {
            0 | 1 => {
                seq.push_back(value);
                model.push(value);
            }
            2 | 3 => {
                seq.push_front(value);
                model.insert(0, value);
            }
            _ => {
                let expected = if model.is_empty() { None } else { Some(model.remove(0)) };
                assert_eq!(seq.pop_front(), expected);
            }
        }
    }
    (seq, model)
}

#[test]
fn splits_and_concats_agree_with_a_vector() {
    let mut state: u64 = 99;
    let (mut seq, mut model) = random_seq(&mut state, 0);
    for round in 0..300 {
        let (other, other_model) = random_seq(&mut state, round * 1000);
        if next_random(&mut state) % 2 == 0 {
            seq.concat(other);
            model.extend(other_model);
        } else {
            let mut joined = other;
            joined.concat(seq);
            seq = joined;
            let mut joined_model = other_model;
            joined_model.extend(model);
            model = joined_model;
        }
        assert_eq!(seq.len(), model.len());
        assert_eq!(collect(&seq), model);
        if !model.is_empty() {
            let index = (next_random(&mut state) as usize) % model.len();
            let (a, b) = seq.split(index);
            assert_eq!(collect(&a), model[..index].to_vec());
            assert_eq!(collect(&b), model[index..].to_vec());
            if next_random(&mut state) % 3 == 0 {
                seq = a;
                model.truncate(index);
            } else if next_random(&mut state) % 3 == 0 {
                seq = b;
                model = model[index..].to_vec();
            }
        }
        for _ in 0..(next_random(&mut state) % 40) {
            assert_eq!(seq.pop_back(), model.pop());
        }
        for _ in 0..(next_random(&mut state) % 40) {
            let expected = if model.is_empty() { None } else { Some(model.remove(0)) };
            assert_eq!(seq.pop_front(), expected);
        }
    }
}

#[test]
fn concat_with_an_empty_sequence_changes_nothing() {
    let mut seq = RawSeq::from_iter((0..70).collect());
    seq.concat(RawSeq::new());
    assert_eq!(seq.len(), 70);
    assert_eq!(collect(&seq), (0..70).collect::<Vec<i32>>());
    let mut empty: RawSeq<i32> = RawSeq::new();
    empty.concat(RawSeq::new());
    assert!(empty.is_empty());
    empty.concat(seq);
    assert_eq!(collect(&empty), (0..70).collect::<Vec<i32>>());
}

#[test]
fn default_is_empty() {
    let seq: RawSeq<i32> = RawSeq::default();
    assert!(seq.is_empty());
    assert_eq!(seq.len(), 0);
}

#[test]
fn elements_that_are_not_copy() {
    let words: Vec<String> = (0..100).map(|i| format!("w{}", i)).collect();
    let mut seq = RawSeq::from_iter(words.clone());
    let kept = seq.clone();
    assert_eq!(seq.pop_front(), Some(String::from("w0")));
    assert_eq!(seq.pop_back(), Some(String::from("w99")));
    seq.push_back(String::from("end"));
    let (a, b) = kept.split(40);
    assert_eq!(a.len(), 40);
    assert_eq!(b.len(), 60);
    let mut it = Iter::new(&kept);
    let mut seen = Vec::new();
    while let Some(word) = it.next() {
        seen.push(word);
    }
    assert_eq!(seen, words);
}
