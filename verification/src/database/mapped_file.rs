//! The data file as one region of bytes with an append cursor.

use vstd::prelude::*;
use vstd::slice::slice_subrange;
use crate::bytes::{read_ordered, uint_bytes, uint_value, write_ordered, Endian};
use crate::error::{Corruption, StoreError};

verus! {

/// Overwrites the bytes of `map` from `at` on with `data`.
fn copy_into(map: &mut Vec<u8>, at: usize, data: &[u8])
    requires
        at + data@.len() <= old(map)@.len(),
    ensures
        final(map)@ == old(map)@.subrange(0, at as int) + data@ + old(map)@.subrange(
            at + data@.len(),
            old(map)@.len() as int,
        ),
{
    let count = data.len();
    let size = map.len();
    let mut k: usize = 0;
    while k < count
        invariant
            k <= count,
            count == data@.len(),
            at + count <= size,
            map@.len() == size,
            size == old(map)@.len(),
            forall|i: int| 0 <= i < at ==> map@[i] == old(map)@[i],
            forall|i: int| at <= i < at + k ==> map@[i] == data@[i - at],
            forall|i: int| at + k <= i < size ==> map@[i] == old(map)@[i],
        decreases count - k,
    {
        map.set(at + k, data[k]);
        k += 1;
    }
    assert(map@ =~= old(map)@.subrange(0, at as int) + data@ + old(map)@.subrange(
        at + count,
        size as int,
    ));
}

/// A region of bytes of fixed length that is filled from the front. The
/// cursor is where the next record goes; the region never grows.
pub struct MappedFile {
    map: Vec<u8>,
    offset: usize,
}

impl MappedFile {
    /// The cursor is inside the region.
    pub closed spec fn wf(self) -> bool {
        self.offset <= self.map@.len()
    }

    /// The bytes of the region.
    pub closed spec fn bytes(self) -> Seq<u8> {
        self.map@
    }

    /// Where the next record goes.
    pub closed spec fn cursor(self) -> nat {
        self.offset as nat
    }

    /// Takes the whole of `bytes` as the region, with the cursor at its
    /// start.
    pub fn open(bytes: Vec<u8>) -> (file: MappedFile)
        ensures
            file.wf(),
            file.bytes() == bytes@,
            file.cursor() == 0,
    {
        MappedFile { map: bytes, offset: 0 }
    }

    /// Length of the region.
    pub fn len(&self) -> (n: usize)
        ensures
            n == self.bytes().len(),
    {
        self.map.len()
    }

    /// Where the next record goes.
    pub fn offset(&self) -> (at: usize)
        ensures
            at == self.cursor(),
    {
        self.offset
    }

    /// Moves the cursor to `to`; a place past the end of the region is
    /// refused.
    pub fn set_append_offset(&mut self, to: usize) -> (moved: Result<(), StoreError>)
        ensures
            old(self).wf() ==> final(self).wf(),
            moved is Ok ==> final(self).wf(),
            final(self).bytes() == old(self).bytes(),
            match moved {
                Ok(_) => to <= old(self).bytes().len() && final(self).cursor() == to,
                Err(e) => {
                    &&& to > old(self).bytes().len()
                    &&& e == StoreError::Corrupt(Corruption::AppendOffsetTooLarge)
                    &&& final(self).cursor() == old(self).cursor()
                },
            },
    {
        if to <= self.map.len() {
            self.offset = to;
            Ok(())
        } else {
            Err(StoreError::Corrupt(Corruption::AppendOffsetTooLarge))
        }
    }

    /// Copies `data` to the cursor and moves the cursor behind it, returning
    /// where the copy starts. Data that does not fit in what is left of the
    /// region is refused and nothing changes.
    pub fn append(&mut self, data: &[u8]) -> (at: Result<usize, StoreError>)
        requires
            old(self).wf(),
        ensures
            final(self).wf(),
            final(self).bytes().len() == old(self).bytes().len(),
            match at {
                Ok(start) => {
                    &&& start == old(self).cursor()
                    &&& start + data@.len() <= old(self).bytes().len()
                    &&& final(self).cursor() == start + data@.len()
                    &&& final(self).bytes() == old(self).bytes().subrange(0, start as int) + data@
                        + old(self).bytes().subrange(
                        start + data@.len(),
                        old(self).bytes().len() as int,
                    )
                },
                Err(e) => {
                    &&& e == StoreError::Full
                    &&& old(self).cursor() + data@.len() > old(self).bytes().len()
                    &&& final(self).bytes() == old(self).bytes()
                    &&& final(self).cursor() == old(self).cursor()
                },
            },
    {
        let start = self.offset;
        let count = data.len();
        if count > self.map.len() - start {
            return Err(StoreError::Full);
        }
        copy_into(&mut self.map, start, data);
        self.offset = start + count;
        Ok(start)
    }

    /// The bytes from `from` up to, not including, `to`.
    pub fn slice(&self, from: usize, to: usize) -> (part: &[u8])
        requires
            from <= to <= self.bytes().len(),
        ensures
            part@ == self.bytes().subrange(from as int, to as int),
    {
        slice_subrange(self.map.as_slice(), from, to)
    }

    /// The `u64` stored in the eight bytes at `at`, in the given byte
    /// order.
    pub fn load_u64(&self, at: usize, order: Endian) -> (n: u64)
        requires
            at + 8 <= self.bytes().len(),
        ensures
            n as nat == uint_value(order, self.bytes().subrange(at as int, at + 8)),
    {
        read_ordered(order, self.map.as_slice(), at, 8)
    }

    /// Stores `n` as a `u64` in the eight bytes at `at`, in the given byte
    /// order. The cursor stays where it is.
    pub fn store_u64(&mut self, at: usize, n: u64, order: Endian)
        requires
            at + 8 <= old(self).bytes().len(),
        ensures
            final(self).wf() == old(self).wf(),
            final(self).cursor() == old(self).cursor(),
            final(self).bytes() == old(self).bytes().subrange(0, at as int) + uint_bytes(
                order,
                n as nat,
                8,
            ) + old(self).bytes().subrange(at + 8, old(self).bytes().len() as int),
    {
        proof {
            crate::bytes::lemma_radix_values();
            crate::bytes::lemma_uint_value_of_bytes(order, n as nat, 8);
        }
        let ghost before = self.map@;
        write_ordered(order, &mut self.map, at, n, 8);
        proof {
            let whole = before.subrange(0, at as int) + uint_bytes(order, n as nat, 8) + before.subrange(
                at + 8,
                before.len() as int,
            );
            assert(self.map@.len() == whole.len());
            assert forall|k: int| 0 <= k < whole.len() implies self.map@[k] == whole[k] by {
                if at <= k < at + 8 {
                    assert(self.map@[k] == self.map@.subrange(at as int, at + 8)[k - at]);
                }
            }
            assert(self.map@ =~= whole);
        }
    }

    /// Gives the region back.
    pub fn into_bytes(self) -> (bytes: Vec<u8>)
        ensures
            bytes@ == self.bytes(),
    {
        self.map
    }

    /// The whole region.
    pub fn as_slice(&self) -> (all: &[u8])
        ensures
            all@ == self.bytes(),
    {
        self.map.as_slice()
    }
}

} // verus!
