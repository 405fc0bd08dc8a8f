//! Booleans as standalone values and as columns.
use vstd::prelude::*;
use crate::ReadError;
use crate::branch::{array_bytes, DynArrayBranch, DynRootBranch};
use crate::packed_bool::{decode_packed_bool, encode_packed_bool, packs, unpack};
use crate::tags::{ArrayTypeId, RootTypeId};
use crate::varint::{encode_prefix_varint, varint_bytes};

verus! {

/// Writes a standalone boolean: its tag says it all, so nothing goes to the stream.
pub fn write_root_bool(value: bool, stream: &mut Vec<u8>) -> (r: RootTypeId)
    ensures
        final(stream)@ == old(stream)@,
        r == (if value { RootTypeId::True } else { RootTypeId::False }),
{
    if value {
        RootTypeId::True
    } else {
        RootTypeId::False
    }
}

/// Reads a boolean out of a decoded value.
pub fn read_bool(branch: DynRootBranch) -> (r: Result<bool, ReadError>)
    ensures
        branch matches DynRootBranch::Boolean(v) ==> r == Ok::<bool, ReadError>(v),
        !(branch is Boolean) ==> r == Err::<bool, ReadError>(ReadError::SchemaMismatch),
{
    match branch {
        DynRootBranch::Boolean(v) => Ok(v),
        _ => Err(ReadError::SchemaMismatch),
    }
}

/// Gathers a column of booleans before it is written.
pub struct BoolWriterArray {
    values: Vec<bool>,
}

impl View for BoolWriterArray {
    type V = Seq<bool>;

    closed spec fn view(&self) -> Seq<bool> {
        self.values@
    }
}

impl BoolWriterArray {
    /// An empty column.
    pub fn new() -> (r: BoolWriterArray)
        ensures
            r@ == Seq::<bool>::empty(),
    {
        BoolWriterArray { values: Vec::new() }
    }

    /// How many rows have been gathered.
    pub fn len(&self) -> (r: usize)
        ensures
            r == self@.len(),
    {
        self.values.len()
    }

    /// Adds one row's value; nothing is written yet.
    pub fn buffer(&mut self, value: bool)
        ensures
            final(self)@ == old(self)@.push(value),
    {
        self.values.push(value);
    }

    /// Writes the whole column: the number of values as a varint, then the values packed.
    pub fn flush(self, stream: &mut Vec<u8>) -> (r: ArrayTypeId)
        requires
            old(stream)@.len() + 9 + self@.len() <= usize::MAX,
        ensures
            r == ArrayTypeId::Boolean,
            final(stream)@.len() >= old(stream)@.len() + varint_bytes(self@.len() as u64).len(),
            final(stream)@ == old(stream)@ + varint_bytes(self@.len() as u64) + final(stream)@.subrange(
                old(stream)@.len() + varint_bytes(self@.len() as u64).len() as int,
                final(stream)@.len() as int,
            ),
            packs(
                final(stream)@.subrange(
                    old(stream)@.len() + varint_bytes(self@.len() as u64).len() as int,
                    final(stream)@.len() as int,
                ),
                self@,
            ),
    {
        encode_prefix_varint(self.values.len() as u64, stream);
        let ghost mid = stream@;
        encode_packed_bool(self.values.as_slice(), stream);
        assert(stream@ =~= mid + stream@.subrange(mid.len() as int, stream@.len() as int)) by {
            assert(stream@.subrange(0, mid.len() as int) == mid);
        }
        ArrayTypeId::Boolean
    }
}

/// Hands out a decoded column of booleans one row at a time.
pub struct BoolReaderArray {
    values: Vec<bool>,
    next: usize,
}

impl View for BoolReaderArray {
    type V = Seq<bool>;

    /// The rows not yet handed out.
    closed spec fn view(&self) -> Seq<bool> {
        if self.next <= self.values@.len() {
            self.values@.subrange(self.next as int, self.values@.len() as int)
        } else {
            Seq::empty()
        }
    }
}

impl BoolReaderArray {
    /// Unpacks a whole boolean column.
    pub fn new_infallible(branch: DynArrayBranch) -> (r: Result<BoolReaderArray, ReadError>)
        ensures
            branch matches DynArrayBranch::Boolean { count, bytes } ==> (if count <= 8 * bytes@.len() {
                r matches Ok(a) && a@ == unpack(bytes@, count as nat)
            } else {
                r == Err::<BoolReaderArray, ReadError>(ReadError::InvalidFormat)
            }),
            !(branch is Boolean) ==> r == Err::<BoolReaderArray, ReadError>(ReadError::SchemaMismatch),
    {
        match branch {
            DynArrayBranch::Boolean { count, bytes } => {
                if count / 8 > bytes.len() || (count / 8 == bytes.len() && count % 8 != 0) {
                    return Err(ReadError::InvalidFormat);
                }
                let values = decode_packed_bool(bytes.as_slice(), count);
                let r = BoolReaderArray { values, next: 0 };
                assert(r@ =~= values@);
                Ok(r)
            },
            _ => Err(ReadError::SchemaMismatch),
        }
    }

    /// How many rows are left.
    pub fn remaining(&self) -> (r: usize)
        ensures
            r == self@.len(),
    {
        if self.next <= self.values.len() {
            self.values.len() - self.next
        } else {
            0
        }
    }

    /// The next row's value; `false`, the default, once the column is used up.
    pub fn read_next_infallible(&mut self) -> (r: bool)
        ensures
            old(self)@.len() > 0 ==> r == old(self)@[0] && final(self)@ == old(self)@.drop_first(),
            old(self)@.len() == 0 ==> !r && final(self)@ == old(self)@,
    {
        if self.next < self.values.len() {
            let v = self.values[self.next];
            self.next = self.next + 1;
            assert(self@ =~= old(self)@.drop_first());
            v
        } else {
            false
        }
    }
}

} // verus!
