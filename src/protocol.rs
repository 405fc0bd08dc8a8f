//! The layout of structs and enums: arities, names, and lookup by name.
use vstd::prelude::*;
use crate::branch::{arity_bytes, name_bytes};
use crate::varint::encode_prefix_varint;
use vstd::string::StringSliceAdditionalSpecFns;

verus! {

/// Writes a name: its byte length as a varint, then its UTF-8 bytes.
pub fn write_ident(name: &str, stream: &mut Vec<u8>)
    ensures
        final(stream)@ == old(stream)@ + name_bytes(name.spec_bytes()),
{
    let b = name.as_bytes();
    encode_prefix_varint(b.len() as u64, stream);
    let ghost mid = stream@;
    let mut i: usize = 0;
    while i < b.len()
        invariant
            i <= b@.len(),
            stream@ == mid + b@.subrange(0, i as int),
        decreases b@.len() - i,
    {
        stream.push(b[i]);
        assert(stream@ =~= mid + b@.subrange(0, i + 1));
        i = i + 1;
    }
    assert(b@.subrange(0, b@.len() as int) =~= b@);
    assert(stream@ =~= old(stream)@ + name_bytes(name.spec_bytes()));
}

/// Writes what stands between an object's tag and its fields: nothing for up to
/// eight fields, else the count beyond nine as a varint.
pub fn write_arity(num_fields: usize, stream: &mut Vec<u8>)
    ensures
        final(stream)@ == old(stream)@ + arity_bytes(num_fields as nat),
{
    if num_fields > 8 {
        encode_prefix_varint((num_fields - 9) as u64, stream);
    } else {
        assert(stream@ =~= old(stream)@ + arity_bytes(num_fields as nat));
    }
}

/// The position of the first name in `s` equal to `name`.
pub open spec fn first_match(s: Seq<Seq<u8>>, name: Seq<u8>) -> Option<nat>
    decreases s.len(),
{
    if s.len() == 0 {
        None
    } else if s[0] == name {
        Some(0)
    } else {
        match first_match(s.drop_first(), name) {
            Some(i) => Some(i + 1),
            None => None,
        }
    }
}

/// The names of named entries.
pub open spec fn names_of<T>(fields: Seq<(Vec<u8>, T)>) -> Seq<Seq<u8>> {
    fields.map_values(|f: (Vec<u8>, T)| f.0@)
}

fn bytes_eq(a: &[u8], b: &[u8]) -> (r: bool)
    ensures
        r == (a@ == b@),
{
    if a.len() != b.len() {
        return false;
    }
    let mut i: usize = 0;
    while i < a.len()
        invariant
            i <= a@.len(),
            a@.len() == b@.len(),
            forall|j: int| 0 <= j < i ==> a@[j] == b@[j],
        decreases a@.len() - i,
    {
        if a[i] != b[i] {
            return false;
        }
        i = i + 1;
    }
    assert(a@ =~= b@);
    true
}

proof fn lemma_first_match_step(s: Seq<Seq<u8>>, name: Seq<u8>, i: int)
    requires
        0 <= i < s.len(),
    ensures
        first_match(s.subrange(i, s.len() as int), name) == (if s[i] == name {
            Some(0nat)
        } else {
            match first_match(s.subrange(i + 1, s.len() as int), name) {
                Some(k) => Some(k + 1),
                None => None,
            }
        }),
{
    assert(s.subrange(i, s.len() as int).drop_first() =~= s.subrange(i + 1, s.len() as int));
}

/// Finds the first entry named `name`.
pub fn find_field<T>(fields: &Vec<(Vec<u8>, T)>, name: &[u8]) -> (r: Option<usize>)
    ensures
        r matches Some(i) ==> first_match(names_of(fields@), name@) == Some(i as nat),
        r is None ==> first_match(names_of(fields@), name@) is None,
{
    let ghost s = names_of(fields@);
    let mut i: usize = 0;
    assert(s.subrange(0, s.len() as int) =~= s);
    while i < fields.len()
        invariant
            i <= fields@.len(),
            s == names_of(fields@),
            first_match(s, name@) == match first_match(s.subrange(i as int, s.len() as int), name@) {
                Some(k) => Some((k + i) as nat),
                None => None,
            },
        decreases fields@.len() - i,
    {
        proof {
            lemma_first_match_step(s, name@, i as int);
        }
        if bytes_eq(fields[i].0.as_slice(), name) {
            return Some(i);
        }
        i = i + 1;
    }
    assert(s.subrange(i as int, s.len() as int) =~= Seq::<Seq<u8>>::empty());
    None
}

/// Takes the first entry named `name` out of `fields`, if there is one. A reader
/// that finds none gives the field its default.
pub fn take_field<T>(fields: &mut Vec<(Vec<u8>, T)>, name: &[u8]) -> (r: Option<T>)
    ensures
        match first_match(names_of(old(fields)@), name@) {
            Some(i) => r == Some(old(fields)@[i as int].1) && final(fields)@ == old(fields)@.remove(
                i as int,
            ),
            None => r is None && final(fields)@ == old(fields)@,
        },
{
    match find_field(fields, name) {
        Some(i) => {
            proof {
                lemma_first_match_bound(names_of(fields@), name@);
            }
            let (_, v) = fields.remove(i);
            Some(v)
        },
        None => None,
    }
}

proof fn lemma_first_match_bound(s: Seq<Seq<u8>>, name: Seq<u8>)
    ensures
        first_match(s, name) matches Some(i) ==> i < s.len() && s[i as int] == name,
    decreases s.len(),
{
    if s.len() > 0 {
        lemma_first_match_bound(s.drop_first(), name);
    }
}

/// Lookup is by name, so a reader is untouched by fields it does not know:
/// entries with other names, written before or after, change neither whether a
/// name is found nor which entry it finds; a name that no entry carries is
/// never found, and the reader defaults it.
pub proof fn lemma_lookup_ignores_other_fields(s: Seq<Seq<u8>>, extra: Seq<Seq<u8>>, name: Seq<u8>)
    requires
        forall|j: int| 0 <= j < extra.len() ==> extra[j] != name,
    ensures
        first_match(s + extra, name) == first_match(s, name),
        first_match(extra + s, name) == (match first_match(s, name) {
            Some(i) => Some(i + extra.len()),
            None => None,
        }),
        first_match(extra, name) is None,
    decreases s.len() + extra.len(),
{
    if s.len() > 0 {
        assert((s + extra).drop_first() =~= s.drop_first() + extra);
        lemma_lookup_ignores_other_fields(s.drop_first(), extra, name);
    } else {
        assert(s + extra =~= extra);
        assert(extra + s =~= extra);
    }
    if extra.len() > 0 {
        assert((extra + s).drop_first() =~= extra.drop_first() + s);
        assert(extra.drop_first() + Seq::<Seq<u8>>::empty() =~= extra.drop_first());
        lemma_lookup_ignores_other_fields(s, extra.drop_first(), name);
    }
}

} // verus!
