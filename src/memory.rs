use vstd::prelude::*;

verus! {

/// A byte buffer obtained from a backend, owned by the allocator once handed
/// over.
pub trait MemoryAllocation {
    /// The buffer's contents.
    spec fn bytes(&self) -> Seq<u8>;

    /// Number of bytes in the buffer.
    fn len(&self) -> (r: usize)
        ensures
            r == self.bytes().len(),
    ;

    /// The byte at `index`.
    fn read(&self, index: usize) -> (r: u8)
        requires
            index < self.bytes().len(),
        ensures
            r == self.bytes()[index as int],
    ;

    /// Stores `value` at `index`, leaving every other byte as it was.
    fn write(&mut self, index: usize, value: u8)
        requires
            index < old(self).bytes().len(),
        ensures
            final(self).bytes() == old(self).bytes().update(index as int, value),
    ;
}

/// A backend: hands out buffers of a requested capacity, or says why it cannot.
pub trait MemoryAllocator<M: MemoryAllocation> {
    /// A buffer of `capacity` bytes, or a description of the failure.
    fn allocate(&self, capacity: usize) -> (r: Result<M, String>)
        ensures
            r matches Ok(mem) ==> mem.bytes().len() == capacity,
    ;
}

/// A buffer on the heap.
pub struct HeapMemory {
    data: Vec<u8>,
}

impl MemoryAllocation for HeapMemory {
    closed spec fn bytes(&self) -> Seq<u8> {
        self.data@
    }

    fn len(&self) -> (r: usize) {
        self.data.len()
    }

    fn read(&self, index: usize) -> (r: u8) {
        self.data[index]
    }

    fn write(&mut self, index: usize, value: u8) {
        self.data.set(index, value);
    }
}

/// The heap backend: every request is served with a zero-filled buffer.
#[derive(Clone, Copy, Debug, Default)]
pub struct HeapAllocator;

impl MemoryAllocator<HeapMemory> for HeapAllocator {
    fn allocate(&self, capacity: usize) -> (r: Result<HeapMemory, String>)
        ensures
            r is Ok,
    {
        let mut data: Vec<u8> = Vec::new();
        while data.len() < capacity
            invariant
                data@.len() <= capacity,
                forall|i: int| 0 <= i < data@.len() ==> data@[i] == 0,
            decreases capacity - data@.len(),
        {
            data.push(0);
        }
        Ok(HeapMemory { data })
    }
}

} // verus!
