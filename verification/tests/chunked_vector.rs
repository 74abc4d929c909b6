use trip_atlas::chunked::{ChunkedVector, ChunkedVectorPool};

#[test]
fn new_is_empty() {
    let v: ChunkedVector<u32> = ChunkedVector::new();
    assert!(v.is_empty());
}

#[test]
fn push_and_pop_newest_first() {
    let mut pool: ChunkedVectorPool<u32> = ChunkedVectorPool::new();
    let mut v = ChunkedVector::new();
    for i in 0..40u32 {
        v.push(i, &mut pool);
    }
    assert!(!v.is_empty());
    for i in (0..40u32).rev() {
        assert_eq!(v.pop(&mut pool), Some(i));
    }
    assert!(v.is_empty());
    assert_eq!(v.pop(&mut pool), None);
}

#[test]
fn traversal_newest_chunk_first() {
    let mut pool: ChunkedVectorPool<u32> = ChunkedVectorPool::new();
    let mut v = ChunkedVector::new();
    for i in 0..20u32 {
        v.push(i, &mut pool);
    }
    // chunks hold sixteen elements: the newest chunk carries 16..20
    let head = v.first_chunk().expect("non-empty vector has a first chunk");
    assert_eq!(head.get_slice(), &[16, 17, 18, 19]);
    let second = v.next_chunk(0).expect("twenty elements fill two chunks");
    assert_eq!(second.get_slice(), (0..16u32).collect::<Vec<_>>().as_slice());
    assert!(v.next_chunk(1).is_none());
}

#[test]
fn empty_vector_has_no_chunks() {
    let v: ChunkedVector<u32> = ChunkedVector::new();
    assert!(v.first_chunk().is_none());
    assert!(v.next_chunk(0).is_none());
}

#[test]
fn clear_recycles_through_the_pool() {
    let mut pool: ChunkedVectorPool<u32> = ChunkedVectorPool::new();
    let mut v = ChunkedVector::new();
    for i in 0..100u32 {
        v.push(i, &mut pool);
    }
    v.clear(&mut pool);
    assert!(v.is_empty());
    assert!(v.first_chunk().is_none());
    // the vector works again after a clear, on recycled chunks
    let mut w = ChunkedVector::new();
    for i in 0..50u32 {
        w.push(i, &mut pool);
    }
    for i in (0..50u32).rev() {
        assert_eq!(w.pop(&mut pool), Some(i));
    }
}

#[test]
fn two_vectors_share_one_pool() {
    let mut pool: ChunkedVectorPool<u32> = ChunkedVectorPool::new();
    let mut a = ChunkedVector::new();
    let mut b = ChunkedVector::new();
    for i in 0..20u32 {
        a.push(i, &mut pool);
        b.push(100 + i, &mut pool);
    }
    assert_eq!(a.pop(&mut pool), Some(19));
    assert_eq!(b.pop(&mut pool), Some(119));
    a.clear(&mut pool);
    assert!(a.is_empty());
    assert_eq!(b.pop(&mut pool), Some(118));
}
