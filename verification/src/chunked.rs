//! A chunked vector whose storage is recycled through a shared pool.
//!
//! The shortest-path engine keeps one such vector per time bucket. Elements
//! live in fixed-capacity chunks; a pool keeps released chunks, with their
//! allocations, so that filling and draining buckets over and over does not
//! go back to the allocator. Chunks carry no pointers: a vector owns its
//! chunks in order, oldest first, and the newest chunk is the one that grows
//! and shrinks.

use vstd::prelude::*;

verus! {

/// How many elements one chunk holds at most.
pub const CHUNK_CAPACITY: usize = 16;

/// One chunk: up to `CHUNK_CAPACITY` elements.
pub struct Chunk<T: Copy> {
    data: Vec<T>,
}

impl<T: Copy> View for Chunk<T> {
    type V = Seq<T>;

    closed spec fn view(&self) -> Seq<T> {
        self.data@
    }
}

impl<T: Copy> Chunk<T> {
    /// The live elements of this chunk.
    pub fn get_slice(&self) -> (r: &[T])
        ensures
            r@ == self@,
    {
        self.data.as_slice()
    }
}

/// Recycled chunks, emptied but with their allocations kept.
pub struct ChunkedVectorPool<T: Copy> {
    free: Vec<Chunk<T>>,
}

/// Every pooled chunk is empty.
pub closed spec fn pool_wf<T: Copy>(pool: ChunkedVectorPool<T>) -> bool {
    forall|i: int| 0 <= i < pool.free@.len() ==> (#[trigger] pool.free@[i])@.len() == 0
}

impl<T: Copy> ChunkedVectorPool<T> {
    pub fn new() -> (r: Self)
        ensures
            pool_wf(r),
    {
        ChunkedVectorPool { free: Vec::new() }
    }

    /// An empty chunk, recycled if one is available.
    fn take_chunk(&mut self) -> (r: Chunk<T>)
        requires
            pool_wf(*old(self)),
        ensures
            pool_wf(*final(self)),
            r@.len() == 0,
    {
        match self.free.pop() {
            Some(chunk) => chunk,
            None => Chunk { data: Vec::new() },
        }
    }

    /// Takes a chunk back, emptied, for later reuse.
    fn put_chunk(&mut self, mut chunk: Chunk<T>)
        requires
            pool_wf(*old(self)),
        ensures
            pool_wf(*final(self)),
    {
        chunk.data.clear();
        self.free.push(chunk);
    }
}

/// The elements of a chunk sequence, oldest chunk first.
pub open spec fn chunks_elems<T: Copy>(chunks: Seq<Seq<T>>) -> Seq<T>
    decreases chunks.len(),
{
    if chunks.len() == 0 {
        Seq::empty()
    } else {
        chunks_elems(chunks.drop_last()) + chunks.last()
    }
}

/// An append-only vector of fixed-size chunks. `new` makes an empty one;
/// `push` appends; `pop` takes the newest element back; `clear` hands every
/// chunk to the pool. Its view is the element sequence in insertion order.
pub struct ChunkedVector<T: Copy> {
    chunks: Vec<Chunk<T>>,
}

impl<T: Copy> View for ChunkedVector<T> {
    type V = Seq<T>;

    closed spec fn view(&self) -> Seq<T> {
        chunks_elems(self.chunks@.map_values(|c: Chunk<T>| c@))
    }
}

impl<T: Copy> ChunkedVector<T> {
    /// The chunks' element sequences, newest chunk first: traversal order.
    pub closed spec fn spec_chunks(&self) -> Seq<Seq<T>> {
        self.chunks@.map_values(|c: Chunk<T>| c@).reverse()
    }

    /// Every chunk is non-empty and within capacity.
    pub closed spec fn wf(&self) -> bool {
        forall|i: int|
            0 <= i < self.chunks@.len() ==> 1 <= (#[trigger] self.chunks@[i])@.len()
                <= CHUNK_CAPACITY
    }

    pub fn new() -> (r: Self)
        ensures
            r.wf(),
            r@ == Seq::<T>::empty(),
    {
        let r = ChunkedVector { chunks: Vec::new() };
        proof {
            assert(r.chunks@.map_values(|c: Chunk<T>| c@) =~= Seq::<Seq<T>>::empty());
        }
        r
    }

    pub fn is_empty(&self) -> (r: bool)
        requires
            self.wf(),
        ensures
            r <==> self@.len() == 0,
    {
        proof {
            lemma_chunks_elems_len(self.chunks@.map_values(|c: Chunk<T>| c@));
        }
        self.chunks.is_empty()
    }

    /// Appends a value: into the newest chunk while it has room, else into a
    /// chunk taken from the pool.
    pub fn push(&mut self, value: T, pool: &mut ChunkedVectorPool<T>)
        requires
            old(self).wf(),
            pool_wf(*old(pool)),
        ensures
            final(self).wf(),
            pool_wf(*final(pool)),
            final(self)@ == old(self)@.push(value),
    {
        let ghost old_chunks = self.chunks@.map_values(|c: Chunk<T>| c@);
        let n = self.chunks.len();
        if n > 0 && self.chunks[n - 1].data.len() < CHUNK_CAPACITY {
            let last = &mut self.chunks[n - 1];
            last.data.push(value);
            proof {
                let new_chunks = self.chunks@.map_values(|c: Chunk<T>| c@);
                assert(new_chunks.drop_last() =~= old_chunks.drop_last());
                assert(new_chunks.last() =~= old_chunks.last().push(value));
                assert(chunks_elems(old_chunks.drop_last()) + old_chunks.last().push(value)
                    =~= (chunks_elems(old_chunks.drop_last()) + old_chunks.last()).push(value));
            }
        } else {
            let mut fresh = pool.take_chunk();
            fresh.data.push(value);
            self.chunks.push(fresh);
            proof {
                let new_chunks = self.chunks@.map_values(|c: Chunk<T>| c@);
                assert(new_chunks.drop_last() =~= old_chunks);
                assert(new_chunks.last() =~= Seq::<T>::empty().push(value));
                assert(chunks_elems(old_chunks) + Seq::<T>::empty().push(value)
                    =~= chunks_elems(old_chunks).push(value));
            }
        }
    }

    /// Takes the newest element back; a chunk it empties goes to the pool.
    pub fn pop(&mut self, pool: &mut ChunkedVectorPool<T>) -> (r: Option<T>)
        requires
            old(self).wf(),
            pool_wf(*old(pool)),
        ensures
            final(self).wf(),
            pool_wf(*final(pool)),
            match r {
                Some(x) => old(self)@.len() > 0 && x == old(self)@.last() && final(self)@ == old(
                    self,
                )@.drop_last(),
                None => old(self)@.len() == 0 && final(self)@ == old(self)@,
            },
    {
        let ghost old_chunks = self.chunks@.map_values(|c: Chunk<T>| c@);
        proof {
            lemma_chunks_elems_len(old_chunks);
        }
        let n = self.chunks.len();
        if n == 0 {
            return None;
        }
        let last = &mut self.chunks[n - 1];
        let x = match last.data.pop() {
            Some(x) => x,
            None => {
                proof {
                    assert(false);
                }
                return None;
            },
        };
        proof {
            let new_chunks = self.chunks@.map_values(|c: Chunk<T>| c@);
            assert(new_chunks.drop_last() =~= old_chunks.drop_last());
            assert(new_chunks.last() =~= old_chunks.last().drop_last());
            assert(chunks_elems(old_chunks.drop_last()) + old_chunks.last().drop_last()
                =~= (chunks_elems(old_chunks.drop_last()) + old_chunks.last()).drop_last());
        }
        if self.chunks[n - 1].data.len() == 0 {
            let ghost mid_chunks = self.chunks@.map_values(|c: Chunk<T>| c@);
            let empty_chunk = match self.chunks.pop() {
                Some(c) => c,
                None => {
                    proof {
                        assert(false);
                    }
                    return None;
                },
            };
            pool.put_chunk(empty_chunk);
            proof {
                let new_chunks = self.chunks@.map_values(|c: Chunk<T>| c@);
                assert(new_chunks =~= mid_chunks.drop_last());
                assert(chunks_elems(mid_chunks) =~= chunks_elems(mid_chunks.drop_last()));
            }
        }
        Some(x)
    }

    /// Hands every chunk back to the pool and leaves the vector empty.
    pub fn clear(&mut self, pool: &mut ChunkedVectorPool<T>)
        requires
            pool_wf(*old(pool)),
        ensures
            final(self).wf(),
            pool_wf(*final(pool)),
            final(self)@ == Seq::<T>::empty(),
    {
        loop
            invariant
                pool_wf(*pool),
            ensures
                self.chunks@.len() == 0,
                pool_wf(*pool),
            decreases self.chunks@.len(),
        {
            match self.chunks.pop() {
                Some(c) => {
                    pool.put_chunk(c);
                },
                None => {
                    break ;
                },
            }
        }
        proof {
            assert(self.chunks@.map_values(|c: Chunk<T>| c@) =~= Seq::<Seq<T>>::empty());
        }
    }

    /// The newest chunk, where traversal starts; `None` when the vector is
    /// empty.
    pub fn first_chunk(&self) -> (r: Option<&Chunk<T>>)
        ensures
            match r {
                Some(c) => self.spec_chunks().len() > 0 && c@ == self.spec_chunks()[0],
                None => self.spec_chunks().len() == 0,
            },
    {
        let n = self.chunks.len();
        if n == 0 {
            None
        } else {
            proof {
                assert(self.spec_chunks()[0] == self.chunks@.map_values(|c: Chunk<T>| c@)[
                    n - 1
                ]);
            }
            Some(&self.chunks[n - 1])
        }
    }

    /// The chunk after position `i` in traversal order (the head chunk is
    /// position 0); `None` behind the oldest chunk.
    pub fn next_chunk(&self, i: usize) -> (r: Option<&Chunk<T>>)
        ensures
            match r {
                Some(c) => i + 1 < self.spec_chunks().len() && c@ == self.spec_chunks()[i + 1],
                None => i + 1 >= self.spec_chunks().len(),
            },
    {
        let n = self.chunks.len();
        if n > 0 && i < n - 1 {
            proof {
                assert(self.spec_chunks()[i + 1] == self.chunks@.map_values(|c: Chunk<T>| c@)[
                    n - 2 - i
                ]);
            }
            Some(&self.chunks[n - 2 - i])
        } else {
            None
        }
    }
}

/// A well-formed chunk sequence has at least as many elements as chunks; in
/// particular it is empty exactly when it has no chunks.
pub proof fn lemma_chunks_elems_len<T: Copy>(chunks: Seq<Seq<T>>)
    ensures
        chunks_elems(chunks).len() >= chunks.len() || exists|i: int|
            0 <= i < chunks.len() && (#[trigger] chunks[i]).len() == 0,
        chunks.len() == 0 ==> chunks_elems(chunks).len() == 0,
    decreases chunks.len(),
{
    if chunks.len() > 0 {
        lemma_chunks_elems_len(chunks.drop_last());
        if chunks_elems(chunks.drop_last()).len() < chunks.len() - 1 {
            let i = choose|i: int|
                0 <= i < chunks.drop_last().len() && (#[trigger] chunks.drop_last()[i]).len()
                    == 0;
            assert(chunks[i].len() == 0);
        } else {
            if chunks.last().len() == 0 {
                assert(chunks[chunks.len() - 1].len() == 0);
            }
        }
    }
}

} // verus!
