//! An owned, resizable block of raw bytes.

use vstd::prelude::*;

verus! {

/// Owns a mutable block of raw bytes.  The only mutation is whole-block
/// replacement; its abstract value is the byte sequence it currently holds.
#[derive(Debug, PartialEq)]
pub struct Buffer {
    storage: Vec<u8>,
}

impl View for Buffer {
    type V = Seq<u8>;

    closed spec fn view(&self) -> Seq<u8> {
        self.storage@
    }
}

impl Clone for Buffer {
    fn clone(&self) -> (other: Self)
        ensures
            other@ == self@,
    {
        Buffer { storage: clone_bytes(&self.storage) }
    }
}

/// Copies a byte vector element by element.
fn clone_bytes(data: &Vec<u8>) -> (copy: Vec<u8>)
    ensures
        copy@ == data@,
{
    let mut copy: Vec<u8> = Vec::new();
    let mut i: usize = 0;
    while i < data.len()
        invariant
            i <= data.len(),
            copy@ == data@.subrange(0, i as int),
        decreases data.len() - i,
    {
        copy.push(data[i]);
        i = i + 1;
        proof {
            assert(copy@ =~= data@.subrange(0, i as int));
        }
    }
    proof {
        assert(copy@ =~= data@);
    }
    copy
}

/// A buffer's contents fit in memory: its length is a machine word.
pub proof fn lemma_buffer_len_bounded(buffer: Buffer)
    ensures
        buffer@.len() <= usize::MAX,
{
    broadcast use vstd::std_specs::vec::axiom_spec_len;

    assert(buffer.storage.len() == buffer.storage@.len());
}

impl Buffer {
    /// Creates a buffer of `size` zero bytes.
    pub fn new_from_size(size: usize) -> (buffer: Self)
        ensures
            buffer@.len() == size,
            forall|i: int| 0 <= i < size ==> buffer@[i] == 0u8,
    {
        let mut storage: Vec<u8> = Vec::new();
        while storage.len() < size
            invariant
                storage@.len() <= size,
                forall|i: int| 0 <= i < storage@.len() ==> storage@[i] == 0u8,
            decreases size - storage@.len(),
        {
            storage.push(0);
        }
        Self { storage }
    }

    /// Creates a buffer that takes ownership of externally produced bytes.
    pub fn new_from_data(data: Vec<u8>) -> (buffer: Self)
        ensures
            buffer@ == data@,
    {
        Self { storage: data }
    }

    /// Returns a view of the current contents.
    pub fn read(&self) -> (data: &Vec<u8>)
        ensures
            data@ == self@,
    {
        &self.storage
    }

    /// Replaces the entire contents; the buffer's size becomes the size of
    /// the new data.
    pub fn write(&mut self, data: &Vec<u8>)
        ensures
            final(self)@ == data@,
    {
        self.storage = clone_bytes(data);
    }

    /// The number of bytes the buffer currently holds.
    pub fn size(&self) -> (n: usize)
        ensures
            n == self@.len(),
    {
        self.storage.len()
    }
}

} // verus!
