//! Unsigned integers as standalone values and as columns; enum columns keep
//! their variant indices in one.
use vstd::prelude::*;
use crate::ReadError;
use crate::branch::{varints_bytes, DynArrayBranch, DynRootBranch};
use crate::tags::{ArrayTypeId, RootTypeId};
use crate::varint::{encode_prefix_varint, varint_bytes};

verus! {

/// Writes a standalone integer as a varint.
pub fn write_root_u64(value: u64, stream: &mut Vec<u8>) -> (r: RootTypeId)
    ensures
        final(stream)@ == old(stream)@ + varint_bytes(value),
        r == RootTypeId::U64,
{
    encode_prefix_varint(value, stream);
    RootTypeId::U64
}

/// Reads an integer out of a decoded value.
pub fn read_u64(branch: DynRootBranch) -> (r: Result<u64, ReadError>)
    ensures
        branch matches DynRootBranch::Integer(v) ==> r == Ok::<u64, ReadError>(v),
        !(branch is Integer) ==> r == Err::<u64, ReadError>(ReadError::SchemaMismatch),
{
    match branch {
        DynRootBranch::Integer(v) => Ok(v),
        _ => Err(ReadError::SchemaMismatch),
    }
}

/// Gathers a column of integers before it is written.
pub struct U64WriterArray {
    values: Vec<u64>,
}

impl View for U64WriterArray {
    type V = Seq<u64>;

    closed spec fn view(&self) -> Seq<u64> {
        self.values@
    }
}

impl U64WriterArray {
    /// An empty column.
    pub fn new() -> (r: U64WriterArray)
        ensures
            r@ == Seq::<u64>::empty(),
    {
        U64WriterArray { values: Vec::new() }
    }

    /// Adds one row's value; nothing is written yet.
    pub fn buffer(&mut self, value: u64)
        ensures
            final(self)@ == old(self)@.push(value),
    {
        self.values.push(value);
    }

    /// Writes the whole column: the number of values, then each value, all as varints.
    pub fn flush(self, stream: &mut Vec<u8>) -> (r: ArrayTypeId)
        ensures
            r == ArrayTypeId::U64,
            final(stream)@ == old(stream)@ + varint_bytes(self@.len() as u64) + varints_bytes(self@),
    {
        encode_prefix_varint(self.values.len() as u64, stream);
        let ghost mid = stream@;
        let mut i: usize = 0;
        assert(varints_bytes(self.values@.subrange(0, 0)) == Seq::<u8>::empty());
        assert(mid =~= mid + Seq::<u8>::empty());
        while i < self.values.len()
            invariant
                i <= self.values@.len(),
                stream@ == mid + varints_bytes(self.values@.subrange(0, i as int)),
            decreases self.values@.len() - i,
        {
            encode_prefix_varint(self.values[i], stream);
            assert(self.values@.subrange(0, i + 1).drop_last() =~= self.values@.subrange(0, i as int));
            i = i + 1;
        }
        assert(self.values@.subrange(0, i as int) =~= self.values@);
        ArrayTypeId::U64
    }
}

/// Hands out a decoded column of integers one row at a time.
pub struct U64ReaderArray {
    values: Vec<u64>,
    next: usize,
}

impl View for U64ReaderArray {
    type V = Seq<u64>;

    /// The rows not yet handed out.
    closed spec fn view(&self) -> Seq<u64> {
        if self.next <= self.values@.len() {
            self.values@.subrange(self.next as int, self.values@.len() as int)
        } else {
            Seq::empty()
        }
    }
}

impl U64ReaderArray {
    /// Takes a whole integer column.
    pub fn new_infallible(branch: DynArrayBranch) -> (r: Result<U64ReaderArray, ReadError>)
        ensures
            branch matches DynArrayBranch::Integer(vs) ==> (r matches Ok(a) && a@ == vs@),
            !(branch is Integer) ==> r == Err::<U64ReaderArray, ReadError>(ReadError::SchemaMismatch),
    {
        match branch {
            DynArrayBranch::Integer(values) => {
                let r = U64ReaderArray { values, next: 0 };
                assert(r@ =~= values@);
                Ok(r)
            },
            _ => Err(ReadError::SchemaMismatch),
        }
    }

    /// How many rows are left.
    pub fn remaining(&self) -> (r: usize)
        ensures
            r == self@.len(),
    {
        if self.next <= self.values.len() {
            self.values.len() - self.next
        } else {
            0
        }
    }

    /// The next row's value; `0`, the default, once the column is used up.
    pub fn read_next_infallible(&mut self) -> (r: u64)
        ensures
            old(self)@.len() > 0 ==> r == old(self)@[0] && final(self)@ == old(self)@.drop_first(),
            old(self)@.len() == 0 ==> r == 0 && final(self)@ == old(self)@,
    {
        if self.next < self.values.len() {
            let v = self.values[self.next];
            self.next = self.next + 1;
            assert(self@ =~= old(self)@.drop_first());
            v
        } else {
            0
        }
    }
}

} // verus!
