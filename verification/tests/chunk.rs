use chunked_seq::chunk::{Chunk, CHUNK_SIZE};

fn elements(chunk: &Chunk<i32>) -> Vec<i32> {
    (0..chunk.len()).map(|i| *chunk.get(i)).collect()
}

#[test]
fn chunk_size_is_thirty_two() {
    assert_eq!(CHUNK_SIZE, 32);
}

#[test]
fn chunk_starts_empty() {
    let chunk: Chunk<i32> = Chunk::new();
    assert_eq!(chunk.len(), 0);
    assert!(chunk.is_empty());
    assert!(!chunk.is_full());
    let other: Chunk<i32> = Chunk::default();
    assert!(other.is_empty());
}

#[test]
fn chunk_fills_up() {
    let mut chunk = Chunk::new();
    for i in 0..32 {
        assert!(!chunk.is_full());
        chunk.push_back(i);
        assert!(!chunk.is_empty());
    }
    assert!(chunk.is_full());
    assert_eq!(chunk.len(), 32);
    assert_eq!(elements(&chunk), (0..32).collect::<Vec<i32>>());
}

#[test]
fn chunk_pushes_and_pops_at_both_ends() {
    let mut chunk = Chunk::new();
    chunk.push_back(2);
    chunk.push_back(3);
    chunk.push_front(1);
    chunk.push_front(0);
    assert_eq!(elements(&chunk), vec![0, 1, 2, 3]);
    assert_eq!(chunk.pop_front(), 0);
    assert_eq!(chunk.pop_back(), 3);
    assert_eq!(elements(&chunk), vec![1, 2]);
    assert_eq!(chunk.pop_back(), 2);
    assert_eq!(chunk.pop_front(), 1);
    assert!(chunk.is_empty());
}

#[test]
fn chunk_split_keeps_the_chunk() {
    let mut chunk = Chunk::new();
    for i in 0..10 {
        chunk.push_back(i);
    }
    for index in 0..10 {
        let (left, right) = chunk.split(index);
        assert_eq!(elements(&left), (0..index as i32).collect::<Vec<i32>>());
        assert_eq!(elements(&right), (index as i32..10).collect::<Vec<i32>>());
    }
    assert_eq!(elements(&chunk), (0..10).collect::<Vec<i32>>());
}

#[test]
fn chunk_extend_appends_in_order() {
    let mut chunk = Chunk::new();
    let mut other = Chunk::new();
    for i in 0..20 {
        chunk.push_back(i);
    }
    for i in 20..32 {
        other.push_back(i);
    }
    chunk.extend(&other);
    assert!(chunk.is_full());
    assert_eq!(elements(&chunk), (0..32).collect::<Vec<i32>>());
    assert_eq!(elements(&other), (20..32).collect::<Vec<i32>>());
    let copy = chunk.clone();
    assert_eq!(elements(&copy), (0..32).collect::<Vec<i32>>());
}
