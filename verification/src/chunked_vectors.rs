//! The chunked vector container: vector data laid out in chunks of a fixed
//! capacity. The data of one point always lies within one chunk.

use vstd::layout::size_of;
use vstd::prelude::*;

verus! {

/// Capacity of one chunk, in bytes.
pub const CHUNK_SIZE: usize = 32 * 1024 * 1024;

/// Whether `len` elements of type `T` fit into one chunk: together they take
/// no more bytes than a chunk has.
pub open spec fn fits_in_chunk<T>(len: nat) -> bool {
    len * size_of::<T>() <= CHUNK_SIZE
}

/// Whether `len` elements of type `T` fit into one chunk, found out without
/// overflow.
pub fn check_fits_in_chunk<T>(len: usize) -> (fits: bool)
    ensures
        fits == fits_in_chunk::<T>(len as nat),
{
    match len.checked_mul(core::mem::size_of::<T>()) {
        Some(bytes) => bytes <= CHUNK_SIZE,
        None => false,
    }
}

/// Where the data of one point stands: in which chunk, from which element on,
/// and how many elements are reserved for it there.
#[derive(Debug, Clone, Copy, PartialEq, Eq, Structural)]
pub struct Location {
    pub chunk: usize,
    pub offset: usize,
    pub reserved: usize,
}

/// A sequence of chunks of vector elements.
pub struct ChunkedVectors<T> {
    chunks: Vec<Vec<T>>,
}

impl<T: Copy> ChunkedVectors<T> {
    /// The elements of each chunk.
    pub closed spec fn chunks(&self) -> Seq<Seq<T>> {
        Seq::new(self.chunks@.len(), |c: int| self.chunks@[c]@)
    }

    /// Whether `location` lies within the chunks as they are filled now.
    pub open spec fn holds(&self, location: Location) -> bool {
        &&& location.chunk < self.chunks().len()
        &&& location.offset + location.reserved <= self.chunks()[location.chunk as int].len()
    }

    /// The elements that stand at `location`.
    pub open spec fn data_at(&self, location: Location) -> Seq<T> {
        self.chunks()[location.chunk as int].subrange(
            location.offset as int,
            location.offset + location.reserved,
        )
    }

    /// The invariant: no chunk is empty, and none is filled beyond the capacity
    /// of a chunk.
    pub open spec fn wf(&self) -> bool {
        forall|c: int|
            0 <= c < self.chunks().len() ==> (#[trigger] self.chunks()[c]).len() > 0
                && fits_in_chunk::<T>(self.chunks()[c].len())
    }

    /// A container without chunks.
    pub fn new() -> (container: Self)
        ensures
            container.wf(),
            container.chunks().len() == 0,
    {
        ChunkedVectors { chunks: Vec::new() }
    }

    /// The number of chunks.
    pub fn chunks_count(&self) -> (count: usize)
        ensures
            count == self.chunks().len(),
    {
        self.chunks.len()
    }

    /// Appends `data` and says where it stands. The data goes to the end of
    /// the last chunk if it fits there as a whole, and to the start of a new
    /// chunk if not. What stood in the container before stays where it was.
    pub fn push(&mut self, data: &[T]) -> (location: Location)
        requires
            old(self).wf(),
            data@.len() > 0,
            fits_in_chunk::<T>(data@.len()),
        ensures
            final(self).wf(),
            final(self).holds(location),
            location.reserved == data@.len(),
            final(self).data_at(location) == data@,
            final(self).chunks().len() >= old(self).chunks().len(),
            forall|c: int|
                0 <= c < old(self).chunks().len() ==> (#[trigger] old(self).chunks()[c]).is_prefix_of(
                    final(self).chunks()[c],
                ),
            // the data stands behind everything that was there
            location.chunk < old(self).chunks().len() ==> location.chunk + 1 == old(
                self,
            ).chunks().len() && location.offset == old(self).chunks()[location.chunk as int].len(),
    {
        let count = self.chunks.len();
        let fits_last = if count == 0 {
            false
        } else {
            match self.chunks[count - 1].len().checked_add(data.len()) {
                Some(total) => check_fits_in_chunk::<T>(total),
                None => false,
            }
        };
        if !fits_last {
            self.chunks.push(Vec::new());
        }
        let chunk: usize = self.chunks.len() - 1;
        let offset: usize = self.chunks[chunk].len();
        let ghost before = self.chunks()[chunk as int];
        let mut i: usize = 0;
        while i < data.len()
            invariant
                i <= data.len(),
                chunk + 1 == self.chunks@.len(),
                self.chunks().len() == if fits_last {
                    old(self).chunks().len()
                } else {
                    old(self).chunks().len() + 1
                },
                forall|c: int| 0 <= c < chunk ==> self.chunks()[c] == old(self).chunks()[c],
                before.len() == offset,
                fits_in_chunk::<T>((offset + data@.len()) as nat),
                self.chunks()[chunk as int] == before + data@.take(i as int),
            decreases data.len() - i,
        {
            let ghost chunks_before = self.chunks();
            self.chunks[chunk].push(data[i]);
            proof {
                assert(self.chunks()[chunk as int] =~= before + data@.take(i + 1));
                assert forall|c: int| 0 <= c < chunk implies self.chunks()[c] == old(
                    self,
                ).chunks()[c] by {
                    assert(self.chunks()[c] == chunks_before[c]);
                }
            }
            i += 1;
        }
        proof {
            assert(data@.take(data@.len() as int) =~= data@);
            assert((before + data@).subrange(offset as int, offset + data@.len()) =~= data@);
            assert forall|c: int| 0 <= c < old(self).chunks().len() implies (#[trigger] old(
                self,
            ).chunks()[c]).is_prefix_of(self.chunks()[c]) by {
                if c == chunk {
                    assert(old(self).chunks()[c] =~= before);
                }
            }
            assert forall|c: int| 0 <= c < self.chunks().len() implies (
            #[trigger] self.chunks()[c]).len() > 0 && fits_in_chunk::<T>(
                self.chunks()[c].len(),
            ) by {
                if c < chunk {
                    assert(old(self).chunks()[c].len() > 0);
                }
            }
        }
        Location { chunk, offset, reserved: data.len() }
    }

    /// Writes `data` over the first elements of the place at `location`. The
    /// rest of the container stays as it is.
    pub fn write(&mut self, location: Location, data: &[T])
        requires
            old(self).wf(),
            old(self).holds(location),
            data@.len() <= location.reserved,
        ensures
            final(self).wf(),
            final(self).chunks().len() == old(self).chunks().len(),
            forall|c: int|
                0 <= c < final(self).chunks().len() ==> (#[trigger] final(self).chunks()[c]).len()
                    == old(self).chunks()[c].len(),
            forall|c: int, e: int|
                0 <= c < final(self).chunks().len() && 0 <= e < final(self).chunks()[c].len()
                    ==> #[trigger] final(self).chunks()[c][e] == if c == location.chunk
                    && location.offset <= e < location.offset + data@.len() {
                    data@[e - location.offset]
                } else {
                    old(self).chunks()[c][e]
                },
    {
        let mut i: usize = 0;
        while i < data.len()
            invariant
                i <= data.len(),
                data@.len() <= location.reserved,
                old(self).holds(location),
                self.chunks().len() == old(self).chunks().len(),
                forall|c: int|
                    0 <= c < self.chunks().len() ==> (#[trigger] self.chunks()[c]).len() == old(
                        self,
                    ).chunks()[c].len(),
                forall|c: int, e: int|
                    0 <= c < self.chunks().len() && 0 <= e < self.chunks()[c].len()
                        ==> #[trigger] self.chunks()[c][e] == if c == location.chunk
                        && location.offset <= e < location.offset + i {
                        data@[e - location.offset]
                    } else {
                        old(self).chunks()[c][e]
                    },
            decreases data.len() - i,
        {
            let ghost chunks_before = self.chunks();
            assert(chunks_before[location.chunk as int].len() == old(
                self,
            ).chunks()[location.chunk as int].len());
            assert(self.chunks@[location.chunk as int]@ == chunks_before[location.chunk as int]);
            assert(self.chunks@[location.chunk as int].len() == chunks_before[location.chunk as int].len());
            self.chunks[location.chunk].set(location.offset + i, data[i]);
            proof {
                assert forall|c: int| 0 <= c < self.chunks().len() implies (
                #[trigger] self.chunks()[c]).len() == old(self).chunks()[c].len() by {
                    assert(chunks_before[c].len() == old(self).chunks()[c].len());
                }
                assert forall|c: int, e: int|
                    0 <= c < self.chunks().len() && 0 <= e < self.chunks()[c].len()
                    implies #[trigger] self.chunks()[c][e] == if c == location.chunk
                    && location.offset <= e < location.offset + i + 1 {
                    data@[e - location.offset]
                } else {
                    old(self).chunks()[c][e]
                } by {
                    assert(chunks_before[c].len() == old(self).chunks()[c].len());
                    if c == location.chunk && e == location.offset + i {
                    } else {
                        assert(self.chunks()[c][e] == chunks_before[c][e]);
                    }
                }
            }
            i += 1;
        }
        proof {
            assert forall|c: int| 0 <= c < self.chunks().len() implies (
            #[trigger] self.chunks()[c]).len() > 0 && fits_in_chunk::<T>(
                self.chunks()[c].len(),
            ) by {
                assert(old(self).chunks()[c].len() > 0);
            }
        }
    }

    /// The first `len` elements that stand at `location`.
    pub fn get(&self, location: Location, len: usize) -> (data: &[T])
        requires
            self.holds(location),
            len <= location.reserved,
        ensures
            data@ == self.chunks()[location.chunk as int].subrange(
                location.offset as int,
                location.offset + len,
            ),
    {
        assert(self.chunks@[location.chunk as int]@ == self.chunks()[location.chunk as int]);
        assert(self.chunks@[location.chunk as int].len() == self.chunks()[location.chunk as int].len());
        vstd::slice::slice_subrange(
            self.chunks[location.chunk].as_slice(),
            location.offset,
            location.offset + len,
        )
    }
}

} // verus!
