//! Whole buffers: encoding values, and decoding them back with their shape checked.
use vstd::prelude::*;
use crate::ReadError;
use crate::boolean::{read_bool, write_root_bool, BoolReaderArray, BoolWriterArray};
use crate::branch::{
    array_bytes, array_fields_bytes, array_within, array_wf, name_bytes, varints_bytes, root_bytes, root_fields_bytes, root_within, DynArrayBranch,
    DynRootBranch,
};
use crate::protocol::write_arity;
use crate::tags::RootTypeId;
use crate::varint::encode_prefix_varint;
use crate::packed_bool::{lemma_packed_bool_round_trip, packed_len, packs, unpack};
use crate::integer::{read_u64, write_root_u64};
use crate::parse::{array_at, bool_column_at, integer_at, parse_array, parse_root, root_at};
use crate::varint::varint_bytes;

verus! {

/// How deeply values may nest in a buffer that is decoded.
pub const MAX_DEPTH: usize = 64;

/// Parses a whole buffer as one standalone value.
pub fn decode_root(bytes: &[u8]) -> (r: Result<DynRootBranch, ReadError>)
    ensures
        r matches Ok(b) ==> bytes@ == root_bytes(b),
        r matches Err(e) ==> e == ReadError::InvalidFormat,
        bytes@ == seq![11u8] ==> r == Ok::<DynRootBranch, ReadError>(DynRootBranch::Boolean(true)),
        bytes@ == seq![12u8] ==> r == Ok::<DynRootBranch, ReadError>(DynRootBranch::Boolean(false)),
        forall|v: u64|
            bytes@ == seq![13u8] + varint_bytes(v) ==> r == Ok::<DynRootBranch, ReadError>(
                DynRootBranch::Integer(v),
            ),
        forall|b: DynRootBranch|
            root_within(b, MAX_DEPTH as nat) && bytes@ == #[trigger] root_bytes(b) ==> (r matches Ok(c)
                && root_bytes(c) == root_bytes(b)),
{
    let parsed = parse_root(bytes, 0, MAX_DEPTH);
    proof {
        assert forall|b: DynRootBranch|
            root_within(b, MAX_DEPTH as nat) && bytes@ == #[trigger] root_bytes(b) implies (parsed matches Ok(
                (c, end),
            ) && end == bytes@.len()) by {
            assert(bytes@.subrange(0, root_bytes(b).len() as int) =~= root_bytes(b));
            assert(root_at(bytes@, 0, b));
        }
        assert forall|v: u64| bytes@ == seq![13u8] + varint_bytes(v) implies (parsed matches Ok((b, end))
            && b == DynRootBranch::Integer(v) && end == bytes@.len()) by {
            assert(bytes@.subrange(1, 1 + varint_bytes(v).len() as int) =~= varint_bytes(v));
            assert(integer_at(bytes@, 0, v));
        }
    }
    let (b, end) = parsed?;
    if end != bytes.len() {
        return Err(ReadError::InvalidFormat);
    }
    assert(bytes@.subrange(0, end as int) =~= bytes@);
    Ok(b)
}

/// Parses a whole buffer as one column.
pub fn decode_array(bytes: &[u8]) -> (r: Result<DynArrayBranch, ReadError>)
    ensures
        r matches Ok(b) ==> bytes@ == array_bytes(b) && array_wf(b),
        r matches Err(e) ==> e == ReadError::InvalidFormat,
        forall|c: u64, p: Seq<u8>|
            c <= usize::MAX && p.len() == packed_len(c as nat) && bytes@ == seq![11u8] + varint_bytes(c)
                + p ==> (r matches Ok(b) && b matches DynArrayBranch::Boolean { count, bytes: q }
                && count == c && q@ == p),
        forall|b: DynArrayBranch|
            array_within(b, MAX_DEPTH as nat) && bytes@ == #[trigger] array_bytes(b) ==> (r matches Ok(c)
                && array_bytes(c) == array_bytes(b)),
{
    proof {
        assert forall|b: DynArrayBranch|
            array_within(b, MAX_DEPTH as nat) && bytes@ == #[trigger] array_bytes(b) implies array_at(bytes@, 0, b) by {
            assert(bytes@.subrange(0, array_bytes(b).len() as int) =~= array_bytes(b));
        }
    }
    proof {
        assert forall|c: u64, p: Seq<u8>|
            c <= usize::MAX && p.len() == packed_len(c as nat) && bytes@ == seq![11u8] + varint_bytes(c)
                + p implies bool_column_at(bytes@, 0, c) && bytes@.len() == 1 + varint_bytes(c).len() + packed_len(c as nat) by {
            assert(bytes@.subrange(1, 1 + varint_bytes(c).len() as int) =~= varint_bytes(c));
        }
    }
    let (b, end) = parse_array(bytes, 0, MAX_DEPTH)?;
    if end != bytes.len() {
        return Err(ReadError::InvalidFormat);
    }
    assert(bytes@.subrange(0, end as int) =~= bytes@);
    proof {
        assert forall|c: u64, p: Seq<u8>|
            c <= usize::MAX && p.len() == packed_len(c as nat) && bytes@ == seq![11u8] + varint_bytes(c)
                + p implies (b matches DynArrayBranch::Boolean { count, bytes: q } && count == c && q@
                == p) by {
            assert(bool_column_at(bytes@, 0, c));
            assert(bytes@.subrange(1 + varint_bytes(c).len() as int, bytes@.len() as int) =~= p);
        }
    }
    Ok(b)
}

/// The buffer of a standalone boolean: its tag alone.
pub fn encode_bool(value: bool) -> (r: Vec<u8>)
    ensures
        r@ == root_bytes(DynRootBranch::Boolean(value)),
{
    let mut stream: Vec<u8> = Vec::new();
    let tag = write_root_bool(value, &mut stream);
    let mut out: Vec<u8> = Vec::new();
    out.push(tag.to_byte());
    out.append(&mut stream);
    assert(out@ =~= root_bytes(DynRootBranch::Boolean(value)));
    out
}

/// Decodes a buffer that should hold a standalone boolean.
pub fn decode_bool(bytes: &[u8]) -> (r: Result<bool, ReadError>)
    ensures
        r matches Ok(v) ==> bytes@ == root_bytes(DynRootBranch::Boolean(v)),
        bytes@ == root_bytes(DynRootBranch::Boolean(true)) ==> r == Ok::<bool, ReadError>(true),
        bytes@ == root_bytes(DynRootBranch::Boolean(false)) ==> r == Ok::<bool, ReadError>(false),
        r == Err::<bool, ReadError>(ReadError::SchemaMismatch) ==> exists|b: DynRootBranch|
            bytes@ == root_bytes(b) && !(b is Boolean),
        forall|b: DynRootBranch| bytes@ == root_bytes(b) && !(b is Boolean) ==> r is Err,
{
    let branch = decode_root(bytes)?;
    let ghost g = branch;
    let r = read_bool(branch);
    proof {
        if r is Err {
            assert(bytes@ == root_bytes(g) && !(g is Boolean));
        }
        if r is Ok {
            assert forall|b: DynRootBranch| !(bytes@ == root_bytes(b) && !(b is Boolean)) by {
                if bytes@ == root_bytes(b) && !(b is Boolean) {
                    assert(root_bytes(b)[0] != 11 && root_bytes(b)[0] != 12);
                }
            }
        }
    }
    r
}

/// Appends the bytes of a decoded value, so that a tree can be written back
/// out without the type that first wrote it.
pub fn write_root_branch(b: &DynRootBranch, out: &mut Vec<u8>)
    ensures
        final(out)@ == old(out)@ + root_bytes(*b),
    decreases b,
{
    match b {
        DynRootBranch::Boolean(v) => {
            out.push(if *v { 11 } else { 12 });
        },
        DynRootBranch::Integer(n) => {
            out.push(13);
            encode_prefix_varint(*n, out);
        },
        DynRootBranch::Enum { discriminant, value } => {
            out.push(10);
            write_name(discriminant.as_slice(), out);
            write_root_branch(value, out);
        },
        DynRootBranch::Object { fields } => {
            let ghost start = out@;
            out.push(RootTypeId::object(fields.len()).to_byte());
            write_arity(fields.len(), out);
            let ghost mid = out@;
            let mut i: usize = 0;
            assert(mid =~= mid + root_fields_bytes(fields@, 0));
            while i < fields.len()
                invariant
                    i <= fields@.len(),
                    out@ == mid + root_fields_bytes(fields@, i as nat),
                    *b == (DynRootBranch::Object { fields: *fields }),
                decreases fields@.len() - i,
            {
                proof {
                    vstd::std_specs::vec::axiom_vec_index_decreases(*fields, i as int);
                    assert(decreases_to!(*b => (*b)->Object_fields));
                    assert(decreases_to!(fields[i as int] => fields[i as int].1));
                }
                write_name(fields[i].0.as_slice(), out);
                write_root_branch(&fields[i].1, out);
                i = i + 1;
            }
            assert(out@ =~= start + root_bytes(*b));
        },
    }
    proof {
        if b is Boolean || b is Integer || b is Enum {
            assert(out@ =~= old(out)@ + root_bytes(*b));
        }
    }
}

/// Appends the bytes of a decoded column.
pub fn write_array_branch(b: &DynArrayBranch, out: &mut Vec<u8>)
    ensures
        final(out)@ == old(out)@ + array_bytes(*b),
    decreases b,
{
    let ghost start = out@;
    match b {
        DynArrayBranch::Boolean { count, bytes } => {
            out.push(11);
            encode_prefix_varint(*count as u64, out);
            let ghost mid = out@;
            let mut i: usize = 0;
            while i < bytes.len()
                invariant
                    i <= bytes@.len(),
                    out@ == mid + bytes@.subrange(0, i as int),
                decreases bytes@.len() - i,
            {
                out.push(bytes[i]);
                assert(out@ =~= mid + bytes@.subrange(0, i + 1));
                i = i + 1;
            }
            assert(bytes@.subrange(0, bytes@.len() as int) =~= bytes@);
        },
        DynArrayBranch::Integer(vs) => {
            out.push(12);
            encode_prefix_varint(vs.len() as u64, out);
            let ghost mid = out@;
            let mut i: usize = 0;
            assert(mid =~= mid + varints_bytes(vs@.subrange(0, 0)));
            while i < vs.len()
                invariant
                    i <= vs@.len(),
                    out@ == mid + varints_bytes(vs@.subrange(0, i as int)),
                decreases vs@.len() - i,
            {
                encode_prefix_varint(vs[i], out);
                assert(vs@.subrange(0, i + 1).drop_last() =~= vs@.subrange(0, i as int));
                i = i + 1;
            }
            assert(vs@.subrange(0, vs@.len() as int) =~= vs@);
        },
        DynArrayBranch::Enum { discriminants, variants } => {
            out.push(10);
            encode_prefix_varint(variants.len() as u64, out);
            write_array_branch(discriminants, out);
            write_array_fields(b, variants, out);
        },
        DynArrayBranch::Object { fields } => {
            out.push(RootTypeId::object(fields.len()).to_byte());
            write_arity(fields.len(), out);
            write_array_fields(b, fields, out);
        },
    }
    assert(out@ =~= start + array_bytes(*b));
}

/// Appends named columns, each as its name and then its bytes.
fn write_array_fields(b: &DynArrayBranch, fields: &Vec<(Vec<u8>, DynArrayBranch)>, out: &mut Vec<u8>)
    requires
        (*b matches DynArrayBranch::Object { fields: f } && f == *fields) || (*b matches DynArrayBranch::Enum {
            variants: f,
            ..
        } && f == *fields),
    ensures
        final(out)@ == old(out)@ + array_fields_bytes(fields@, fields.len() as nat),
    decreases b, 0nat,
{
    let ghost mid = out@;
    let mut i: usize = 0;
    assert(mid =~= mid + array_fields_bytes(fields@, 0));
    while i < fields.len()
        invariant
            i <= fields@.len(),
            out@ == mid + array_fields_bytes(fields@, i as nat),
            (*b matches DynArrayBranch::Object { fields: f } && f == *fields) || (*b matches DynArrayBranch::Enum {
                variants: f,
                ..
            } && f == *fields),
        decreases fields@.len() - i,
    {
        proof {
            vstd::std_specs::vec::axiom_vec_index_decreases(*fields, i as int);
            if b is Object {
                assert(decreases_to!(*b => (*b)->Object_fields));
            } else {
                assert(decreases_to!(*b => (*b)->Enum_variants));
            }
            assert(decreases_to!(fields[i as int] => fields[i as int].1));
        }
        write_name(fields[i].0.as_slice(), out);
        write_array_branch(&fields[i].1, out);
        i = i + 1;
    }
}

/// Appends a name: its byte length as a varint, then its bytes.
fn write_name(name: &[u8], out: &mut Vec<u8>)
    ensures
        final(out)@ == old(out)@ + name_bytes(name@),
{
    encode_prefix_varint(name.len() as u64, out);
    let ghost mid = out@;
    let mut i: usize = 0;
    while i < name.len()
        invariant
            i <= name@.len(),
            out@ == mid + name@.subrange(0, i as int),
        decreases name@.len() - i,
    {
        out.push(name[i]);
        assert(out@ =~= mid + name@.subrange(0, i + 1));
        i = i + 1;
    }
    assert(name@.subrange(0, name@.len() as int) =~= name@);
    assert(out@ =~= old(out)@ + name_bytes(name@));
}

/// The buffer of a standalone integer: its tag, then its varint.
pub fn encode_u64(value: u64) -> (r: Vec<u8>)
    ensures
        r@ == root_bytes(DynRootBranch::Integer(value)),
{
    let mut stream: Vec<u8> = Vec::new();
    let tag = write_root_u64(value, &mut stream);
    let mut out: Vec<u8> = Vec::new();
    out.push(tag.to_byte());
    out.append(&mut stream);
    assert(out@ =~= root_bytes(DynRootBranch::Integer(value)));
    out
}

/// Decodes a buffer that should hold a standalone integer.
pub fn decode_u64(bytes: &[u8]) -> (r: Result<u64, ReadError>)
    ensures
        r matches Ok(v) ==> bytes@ == root_bytes(DynRootBranch::Integer(v)),
        forall|v: u64| bytes@ == root_bytes(DynRootBranch::Integer(v)) ==> r == Ok::<u64, ReadError>(v),
        r == Err::<u64, ReadError>(ReadError::SchemaMismatch) ==> exists|b: DynRootBranch|
            bytes@ == root_bytes(b) && !(b is Integer),
{
    let branch = decode_root(bytes)?;
    let ghost g = branch;
    let r = read_u64(branch);
    proof {
        if r is Err {
            assert(bytes@ == root_bytes(g) && !(g is Integer));
        }
    }
    r
}

/// The buffer of a column of booleans: the column tag, the count, then the values packed.
pub fn encode_bool_array(values: &[bool]) -> (r: Vec<u8>)
    requires
        values@.len() + 16 <= usize::MAX,
    ensures
        r@.len() == 1 + varint_bytes(values@.len() as u64).len() + packed_len(values@.len()),
        r@.subrange(0, 1 + varint_bytes(values@.len() as u64).len() as int) == seq![11u8]
            + varint_bytes(values@.len() as u64),
        packs(r@.subrange(1 + varint_bytes(values@.len() as u64).len() as int, r@.len() as int), values@),
{
    let mut column = BoolWriterArray::new();
    let mut i: usize = 0;
    while i < values.len()
        invariant
            i <= values@.len(),
            column@ == values@.subrange(0, i as int),
        decreases values@.len() - i,
    {
        column.buffer(values[i]);
        assert(column@ =~= values@.subrange(0, i + 1));
        i = i + 1;
    }
    assert(column@ =~= values@);
    let mut out: Vec<u8> = Vec::new();
    out.push(0);
    let tag = column.flush(&mut out);
    out.set(0, tag.to_byte());
    let ghost n = values@.len() as u64;
    assert(out@.subrange(0, 1 + varint_bytes(n).len() as int) =~= seq![11u8] + varint_bytes(n));
    out
}

/// Decodes a buffer that should hold a column of booleans, every row in order.
pub fn decode_bool_array(bytes: &[u8]) -> (r: Result<Vec<bool>, ReadError>)
    ensures
        r matches Ok(vs) ==> exists|c: usize, p: Vec<u8>|
            bytes@ == array_bytes(DynArrayBranch::Boolean { count: c, bytes: p }) && vs@ == unpack(
                p@,
                c as nat,
            ),
        forall|s: Seq<bool>, p: Seq<u8>|
            s.len() <= usize::MAX && packs(p, s) && bytes@ == seq![11u8] + varint_bytes(s.len() as u64)
                + p ==> (r matches Ok(vs) && vs@ == s),
{
    let branch = decode_array(bytes);
    let branch = match branch {
        Ok(b) => b,
        Err(e) => {
            proof {
                assert forall|s: Seq<bool>, p: Seq<u8>|
                    s.len() <= usize::MAX && packs(p, s) && bytes@ == seq![11u8] + varint_bytes(
                        s.len() as u64,
                    ) + p implies false by {
                    assert(s.len() as u64 <= usize::MAX);
                    assert((s.len() as u64) as nat == s.len());
                }
            }
            return Err(e);
        },
    };
    let ghost g = branch;
    let mut column = BoolReaderArray::new_infallible(branch)?;
    let mut out: Vec<bool> = Vec::new();
    let ghost all = column@;
    let n = column.remaining();
    let mut i: usize = 0;
    while i < n
        invariant
            i <= n,
            n == all.len(),
            column@ == all.subrange(i as int, n as int),
            out@ == all.subrange(0, i as int),
        decreases n - i,
    {
        let v = column.read_next_infallible();
        out.push(v);
        assert(out@ =~= all.subrange(0, i + 1));
        assert(column@ =~= all.subrange(i + 1, n as int));
        i = i + 1;
    }
    assert(out@ =~= all);
    proof {
        assert forall|s: Seq<bool>, p: Seq<u8>|
            s.len() <= usize::MAX && packs(p, s) && bytes@ == seq![11u8] + varint_bytes(s.len() as u64)
                + p implies out@ == s by {
            assert((s.len() as u64) as nat == s.len());
            lemma_packed_bool_round_trip(p, s);
        }
    }
    Ok(out)
}

} // verus!
