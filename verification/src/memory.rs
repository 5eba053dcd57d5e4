//! The guest's linear memory with a bump allocator over it. A pointer is an
//! offset into one byte-addressable region; `allocate` hands out fresh
//! 1-byte-aligned blocks that stay valid until the matching `deallocate`,
//! which a bump allocator honors by reclaiming nothing. The host uses it to
//! place inbound message bytes before invoking the guest's receive export,
//! with every access bounds-checked.

use vstd::prelude::*;
use vstd::assert_seqs_equal;

verus! {

pub struct WasmMemory {
    data: Vec<u8>,
    next_free: usize,
}

impl View for WasmMemory {
    type V = Seq<u8>;

    closed spec fn view(&self) -> Seq<u8> {
        self.data@
    }
}

impl WasmMemory {
    /// The offset below which blocks have been handed out.
    pub closed spec fn free_ptr(&self) -> int {
        self.next_free as int
    }

    pub open spec fn wf(&self) -> bool {
        0 <= self.free_ptr() <= self@.len()
    }

    /// A zeroed linear memory of `size` bytes.
    pub fn new(size: usize) -> (r: Self)
        ensures
            r@.len() == size,
            forall|i: int| 0 <= i < size ==> r@[i] == 0u8,
            r.free_ptr() == 0,
            r.wf(),
    {
        let mut data: Vec<u8> = Vec::new();
        let mut i: usize = 0;
        while i < size
            invariant
                0 <= i <= size,
                data@.len() == i,
                forall|j: int| 0 <= j < i ==> data@[j] == 0u8,
            decreases size - i,
        {
            data.push(0);
            i = i + 1;
        }
        WasmMemory { data, next_free: 0 }
    }

    /// Reserve `size` writable bytes and return their offset; `None` when
    /// the region is exhausted (the embedder aborts the guest then).
    pub fn allocate(&mut self, size: usize) -> (r: Option<usize>)
        requires
            old(self).wf(),
        ensures
            final(self).wf(),
            final(self)@ == old(self)@,
            match r {
                Some(ptr) => {
                    &&& ptr as int == old(self).free_ptr()
                    &&& ptr + size <= old(self)@.len()
                    &&& final(self).free_ptr() == ptr + size
                },
                None => {
                    &&& old(self).free_ptr() + size > old(self)@.len()
                    &&& final(self).free_ptr() == old(self).free_ptr()
                },
            },
    {
        if size > self.data.len() - self.next_free {
            return None;
        }
        let ptr = self.next_free;
        self.next_free = self.next_free + size;
        Some(ptr)
    }

    /// Return a block. A bump allocator reclaims nothing, so the memory and
    /// every outstanding block stay as they are.
    pub fn deallocate(&mut self, ptr: usize, size: usize)
        ensures
            final(self)@ == old(self)@,
            final(self).free_ptr() == old(self).free_ptr(),
    {
    }

    /// Copy `bytes` into memory at `ptr`; out of bounds writes nothing and
    /// reports failure.
    #[verifier::loop_isolation(false)]
    pub fn write_bytes(&mut self, ptr: usize, bytes: &Vec<u8>) -> (r: bool)
        requires
            old(self).wf(),
        ensures
            final(self).wf(),
            final(self).free_ptr() == old(self).free_ptr(),
            final(self)@.len() == old(self)@.len(),
            r == (ptr + bytes@.len() <= old(self)@.len()),
            if r {
                final(self)@ == old(self)@.subrange(0, ptr as int) + bytes@ + old(self)@.subrange(
                    ptr + bytes@.len(),
                    old(self)@.len() as int,
                )
            } else {
                final(self)@ == old(self)@
            },
    {
        let blen = bytes.len();
        if blen > self.data.len() || ptr > self.data.len() - blen {
            return false;
        }
        let mut i: usize = 0;
        while i < blen
            invariant
                0 <= i <= blen,
                self.next_free == old(self).next_free,
                self.data@.len() == old(self)@.len(),
                forall|j: int| 0 <= j < ptr ==> self.data@[j] == old(self)@[j],
                forall|j: int| 0 <= j < i ==> self.data@[ptr + j] == bytes@[j],
                forall|j: int|
                    ptr + blen <= j < old(self)@.len() ==> self.data@[j] == old(self)@[j],
            decreases blen - i,
        {
            self.data[ptr + i] = bytes[i];
            i = i + 1;
        }
        proof {
            assert_seqs_equal!(self.data@ == old(self)@.subrange(0, ptr as int) + bytes@
                + old(self)@.subrange(ptr + bytes@.len(), old(self)@.len() as int));
        }
        true
    }

    /// Read `len` bytes at `ptr`; out of bounds reads nothing (the caller
    /// logs a diagnostic and carries on).
    #[verifier::loop_isolation(false)]
    pub fn read_bytes(&self, ptr: usize, len: usize) -> (r: Option<Vec<u8>>)
        ensures
            match r {
                Some(b) => ptr + len <= self@.len() && b@ == self@.subrange(
                    ptr as int,
                    ptr + len,
                ),
                None => ptr + len > self@.len(),
            },
    {
        if len > self.data.len() || ptr > self.data.len() - len {
            return None;
        }
        let mut b: Vec<u8> = Vec::new();
        let mut i: usize = 0;
        while i < len
            invariant
                0 <= i <= len,
                b@.len() == i,
                forall|j: int| 0 <= j < i ==> b@[j] == self.data@[ptr + j],
            decreases len - i,
        {
            b.push(self.data[ptr + i]);
            i = i + 1;
        }
        proof {
            assert_seqs_equal!(b@ == self@.subrange(ptr as int, ptr + len));
        }
        Some(b)
    }
}

} // verus!
