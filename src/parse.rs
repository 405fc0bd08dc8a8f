//! The type-agnostic parser: from bytes to decoded trees.
use vstd::prelude::*;
use crate::ReadError;
use crate::branch::{
    array_bytes, array_fields_bytes, array_fields_wf, array_wf, arity_bytes, name_bytes, object_tag,
    root_bytes, root_fields_bytes, root_fields_within, root_within, varints_bytes, DynArrayBranch,
    DynRootBranch, lemma_root_prefix_free, lemma_varints_prefix_free, array_within, array_fields_within,
    lemma_array_prefix_free, lemma_array_fields_prefix_free,
};
use crate::packed_bool::packed_len;
use crate::tags::{ArrayTypeId, RootTypeId};
use crate::varint::{
    decode_prefix_varint, encode_prefix_varint, lemma_varint_prefix_free, lemma_varint_round_trip,
    varint_bytes,
};

verus! {

/// Reads the varint at `pos`, accepting only the shortest encoding of its value.
pub fn read_varint(bytes: &[u8], pos: usize) -> (r: Option<(u64, usize)>)
    ensures
        r matches Some((v, end)) ==> pos < end <= bytes@.len() && bytes@.subrange(pos as int, end as int)
            == varint_bytes(v),
        forall|v: u64|
            pos + varint_bytes(v).len() <= bytes@.len() && #[trigger] varint_bytes(v) == bytes@.subrange(
                pos as int,
                pos + varint_bytes(v).len(),
            ) ==> r == Some((v, (pos + varint_bytes(v).len()) as usize)),
{
    if pos >= bytes.len() {
        return None;
    }
    let ghost s = bytes@.subrange(pos as int, bytes@.len() as int);
    proof {
        assert forall|v: u64|
            pos + varint_bytes(v).len() <= bytes@.len() && #[trigger] varint_bytes(v) == bytes@.subrange(
                pos as int,
                pos + varint_bytes(v).len(),
            ) implies crate::varint::varint_read(s) == Some((v as nat, varint_bytes(v).len())) by {
            let tail = bytes@.subrange(pos + varint_bytes(v).len(), bytes@.len() as int);
            lemma_varint_round_trip(v, tail);
            assert(s =~= varint_bytes(v) + tail);
        }
    }
    match decode_prefix_varint(bytes, pos) {
        None => None,
        Some((v, end)) => {
            let mut canon: Vec<u8> = Vec::new();
            encode_prefix_varint(v, &mut canon);
            assert(canon@ =~= varint_bytes(v));
            if canon.len() != end - pos {
                proof {
                    assert forall|w: u64|
                        !(pos + varint_bytes(w).len() <= bytes@.len() && #[trigger] varint_bytes(w)
                            == bytes@.subrange(pos as int, pos + varint_bytes(w).len())) by {
                        if pos + varint_bytes(w).len() <= bytes@.len() && varint_bytes(w)
                            == bytes@.subrange(pos as int, pos + varint_bytes(w).len()) {
                            assert(w == v);
                        }
                    }
                }
                return None;
            }
            let mut i: usize = 0;
            while i < canon.len()
                invariant
                    i <= canon@.len(),
                    canon@.len() == end - pos,
                    end <= bytes@.len(),
                    pos <= end,
                    forall|j: int| 0 <= j < i ==> canon@[j] == bytes@[pos + j],
                    canon@ == varint_bytes(v),
                    s == bytes@.subrange(pos as int, bytes@.len() as int),
                    crate::varint::varint_read(s) == Some((v as nat, (end - pos) as nat)),
                    forall|w: u64|
                        pos + varint_bytes(w).len() <= bytes@.len() && #[trigger] varint_bytes(w)
                            == bytes@.subrange(pos as int, pos + varint_bytes(w).len())
                            ==> crate::varint::varint_read(s) == Some((w as nat, varint_bytes(w).len())),
                decreases canon@.len() - i,
            {
                if canon[i] != bytes[pos + i] {
                    proof {
                        assert forall|w: u64|
                            !(pos + varint_bytes(w).len() <= bytes@.len() && #[trigger] varint_bytes(w)
                                == bytes@.subrange(pos as int, pos + varint_bytes(w).len())) by {
                            if pos + varint_bytes(w).len() <= bytes@.len() && varint_bytes(w)
                                == bytes@.subrange(pos as int, pos + varint_bytes(w).len()) {
                                assert(w == v);
                                assert(canon@[i as int] == varint_bytes(w)[i as int]);
                            }
                        }
                    }
                    return None;
                }
                i = i + 1;
            }
            assert(canon@ =~= bytes@.subrange(pos as int, end as int));
            Some((v, end))
        },
    }
}

/// At `pos` stand the bytes of the name `n`.
pub open spec fn name_at(bytes: Seq<u8>, pos: int, n: Seq<u8>) -> bool {
    &&& 0 <= pos
    &&& pos + name_bytes(n).len() <= bytes.len()
    &&& bytes.subrange(pos, pos + name_bytes(n).len()) == name_bytes(n)
}

/// At `pos` stand the bytes of the value `b`.
pub open spec fn root_at(bytes: Seq<u8>, pos: int, b: DynRootBranch) -> bool {
    &&& 0 <= pos
    &&& pos + root_bytes(b).len() <= bytes.len()
    &&& bytes.subrange(pos, pos + root_bytes(b).len()) == root_bytes(b)
}

/// Reads a name at `pos`: a varint length and that many bytes.
pub fn read_name(bytes: &[u8], pos: usize) -> (r: Result<(Vec<u8>, usize), ReadError>)
    ensures
        r matches Ok((n, end)) ==> pos < end <= bytes@.len() && bytes@.subrange(pos as int, end as int)
            == name_bytes(n@),
        r matches Err(e) ==> e == ReadError::InvalidFormat,
        forall|n: Seq<u8>|
            n.len() <= usize::MAX && #[trigger] name_at(bytes@, pos as int, n) ==> (r matches Ok((m, end))
                && m@ == n && end == pos + name_bytes(n).len()),
{
    proof {
        assert forall|n: Seq<u8>| n.len() <= usize::MAX && #[trigger] name_at(bytes@, pos as int, n) implies
            varint_bytes(n.len() as u64) == bytes@.subrange(pos as int, pos + varint_bytes(n.len() as u64).len())
            && n == bytes@.subrange(pos + varint_bytes(n.len() as u64).len(), pos + name_bytes(n).len()) by {
            let k = varint_bytes(n.len() as u64).len();
            assert(bytes@.subrange(pos as int, pos + k) =~= name_bytes(n).subrange(0, k as int));
            assert(varint_bytes(n.len() as u64) =~= name_bytes(n).subrange(0, k as int));
            assert(n =~= name_bytes(n).subrange(k as int, name_bytes(n).len() as int));
            assert(bytes@.subrange(pos + k, pos + name_bytes(n).len()) =~= name_bytes(n).subrange(
                k as int,
                name_bytes(n).len() as int,
            ));
        }
    }
    match read_varint(bytes, pos) {
        None => Err(ReadError::InvalidFormat),
        Some((len, p)) => {
            if len > (bytes.len() - p) as u64 {
                return Err(ReadError::InvalidFormat);
            }
            let len = len as usize;
            let mut n: Vec<u8> = Vec::new();
            let mut i: usize = 0;
            while i < len
                invariant
                    i <= len,
                    p + len <= bytes@.len(),
                    bytes@.len() == bytes.len(),
                    n@ == bytes@.subrange(p as int, p + i),
                decreases len - i,
            {
                n.push(bytes[p + i]);
                assert(n@ =~= bytes@.subrange(p as int, p + i + 1));
                i = i + 1;
            }
            assert(bytes@.subrange(pos as int, (p + len) as int) =~= bytes@.subrange(pos as int, p as int)
                + n@);
            Ok((n, p + len))
        },
    }
}

proof fn lemma_fields_prefix(s: Seq<(Vec<u8>, DynRootBranch)>, t: Seq<(Vec<u8>, DynRootBranch)>, i: nat)
    requires
        i <= s.len(),
        i <= t.len(),
        forall|j: int| 0 <= j < i ==> s[j] == t[j],
    ensures
        root_fields_bytes(s, i) == root_fields_bytes(t, i),
    decreases i,
{
    if i > 0 {
        lemma_fields_prefix(s, t, (i - 1) as nat);
    }
}

/// At `pos` stand an integer's tag and the shortest encoding of `v`.
pub open spec fn integer_at(bytes: Seq<u8>, pos: int, v: u64) -> bool {
    &&& 0 <= pos < bytes.len()
    &&& bytes[pos] == 13
    &&& pos + 1 + varint_bytes(v).len() <= bytes.len()
    &&& bytes.subrange(pos + 1, pos + 1 + varint_bytes(v).len()) == varint_bytes(v)
}

proof fn lemma_root_tag(b: DynRootBranch)
    ensures
        root_bytes(b).len() >= 1,
        b matches DynRootBranch::Boolean(v) ==> root_bytes(b) == (if v { seq![11u8] } else { seq![12u8] }),
        b is Integer ==> root_bytes(b)[0] == 13,
        b is Enum ==> root_bytes(b)[0] == 10,
        b matches DynRootBranch::Object { fields } ==> root_bytes(b)[0] == object_tag(fields.len() as nat),
{
}

proof fn lemma_root_at_unique(bytes: Seq<u8>, pos: int, a: DynRootBranch, b: DynRootBranch, da: nat, db: nat)
    requires
        root_at(bytes, pos, a),
        root_at(bytes, pos, b),
        root_within(a, da),
        root_within(b, db),
    ensures
        root_bytes(a) == root_bytes(b),
{
    let t1 = bytes.subrange(pos + root_bytes(a).len(), bytes.len() as int);
    let t2 = bytes.subrange(pos + root_bytes(b).len(), bytes.len() as int);
    assert(bytes.subrange(pos, bytes.len() as int) =~= root_bytes(a) + t1);
    assert(bytes.subrange(pos, bytes.len() as int) =~= root_bytes(b) + t2);
    lemma_root_prefix_free(a, b, t1, t2, da, db);
}

proof fn lemma_fields_bytes_prefix(s: Seq<(Vec<u8>, DynRootBranch)>, j: nat, k: nat)
    requires
        j <= k <= s.len(),
    ensures
        root_fields_bytes(s, j).len() <= root_fields_bytes(s, k).len(),
        root_fields_bytes(s, k).subrange(0, root_fields_bytes(s, j).len() as int) == root_fields_bytes(s, j),
    decreases k,
{
    if j < k {
        lemma_fields_bytes_prefix(s, j, (k - 1) as nat);
        let a = root_fields_bytes(s, j);
        let b = root_fields_bytes(s, (k - 1) as nat);
        assert(root_fields_bytes(s, k).subrange(0, a.len() as int) =~= b.subrange(0, a.len() as int));
    } else {
        assert(root_fields_bytes(s, k).subrange(0, root_fields_bytes(s, k).len() as int) =~= root_fields_bytes(s, k));
    }
}

proof fn lemma_fields_within_at(s: Seq<(Vec<u8>, DynRootBranch)>, k: nat, d: nat, j: int)
    requires
        root_fields_within(s, k, d),
        0 <= j < k <= s.len(),
    ensures
        s[j].0@.len() <= usize::MAX,
        root_within(s[j].1, d),
    decreases k,
{
    if j < k - 1 {
        lemma_fields_within_at(s, (k - 1) as nat, d, j);
    }
}

proof fn lemma_sub(bytes: Seq<u8>, pos: int, big: Seq<u8>, a: int, b: int)
    requires
        0 <= pos,
        pos + big.len() <= bytes.len(),
        bytes.subrange(pos, pos + big.len()) == big,
        0 <= a <= b <= big.len(),
    ensures
        bytes.subrange(pos + a, pos + b) == big.subrange(a, b),
{
    assert forall|j: int| 0 <= j < b - a implies bytes.subrange(pos + a, pos + b)[j] == big.subrange(a, b)[j] by {
        assert(bytes.subrange(pos, pos + big.len())[a + j] == bytes[pos + a + j]);
    }
    assert(bytes.subrange(pos + a, pos + b) =~= big.subrange(a, b));
}

proof fn lemma_field_at(bytes: Seq<u8>, start: int, fw: Seq<(Vec<u8>, DynRootBranch)>, i: int, d: nat)
    requires
        0 <= start,
        start + root_fields_bytes(fw, fw.len()).len() <= bytes.len(),
        bytes.subrange(start, start + root_fields_bytes(fw, fw.len()).len()) == root_fields_bytes(fw, fw.len()),
        0 <= i < fw.len(),
        root_fields_within(fw, fw.len(), d),
    ensures
        fw[i].0@.len() <= usize::MAX,
        root_within(fw[i].1, d),
        name_at(bytes, start + root_fields_bytes(fw, i as nat).len(), fw[i].0@),
        root_at(bytes, start + root_fields_bytes(fw, i as nat).len() + name_bytes(fw[i].0@).len(), fw[i].1),
        root_fields_bytes(fw, (i + 1) as nat).len() == root_fields_bytes(fw, i as nat).len() + name_bytes(
            fw[i].0@,
        ).len() + root_bytes(fw[i].1).len(),
{
    lemma_fields_bytes_prefix(fw, (i + 1) as nat, fw.len());
    lemma_fields_within_at(fw, fw.len(), d, i);
    let total = root_fields_bytes(fw, fw.len());
    let before = root_fields_bytes(fw, i as nat);
    let nb = name_bytes(fw[i].0@);
    let rb = root_bytes(fw[i].1);
    let upto = root_fields_bytes(fw, (i + 1) as nat);
    assert(upto == before + nb + rb);
    let x = before.len() as int;
    let y = x + nb.len();
    let z = y + rb.len();
    lemma_sub(bytes, start, total, x, y);
    lemma_sub(bytes, start, total, y, z);
    assert(total.subrange(x, y) =~= upto.subrange(x, y));
    assert(upto.subrange(x, y) =~= nb);
    assert(total.subrange(y, z) =~= upto.subrange(y, z));
    assert(upto.subrange(y, z) =~= rb);
}

/// The fields of an object, or none for another value.
pub open spec fn fields_of(b: DynRootBranch) -> Seq<(Vec<u8>, DynRootBranch)> {
    match b {
        DynRootBranch::Object { fields } => fields@,
        _ => Seq::empty(),
    }
}

/// Parses the object whose tag stands at `pos`, nesting at most `depth` levels.
#[verifier::rlimit(60)]
fn parse_object(bytes: &[u8], pos: usize, depth: usize) -> (r: Result<(DynRootBranch, usize), ReadError>)
    requires
        depth > 0,
        pos < bytes@.len(),
        bytes@[pos as int] <= 9,
    ensures
        r matches Ok((b, end)) ==> pos < end <= bytes@.len() && bytes@.subrange(pos as int, end as int)
            == root_bytes(b),
        r matches Err(e) ==> e == ReadError::InvalidFormat,
        forall|b: DynRootBranch|
            #[trigger] root_at(bytes@, pos as int, b) && root_within(b, depth as nat) ==> (r matches Ok((c, end))
                && end == pos + root_bytes(b).len()),
    decreases depth, 0nat,
{
    let tag = bytes[pos];
    let ghost has = exists|b: DynRootBranch| #[trigger] root_at(bytes@, pos as int, b) && root_within(b, depth as nat);
    let ghost w = if has {
        choose|b: DynRootBranch| #[trigger] root_at(bytes@, pos as int, b) && root_within(b, depth as nat)
    } else {
        DynRootBranch::Boolean(true)
    };
    let ghost fw = fields_of(w);
    let ghost total = root_fields_bytes(fw, fw.len());
    let ghost ab = arity_bytes(fw.len());
    proof {
        if has {
            lemma_root_tag(w);
            assert(root_bytes(w)[0] == bytes@[pos as int]);
            assert(w is Object);
            assert(root_bytes(w) =~= seq![tag] + ab + total);
            let a = 1 + ab.len() as int;
            lemma_sub(bytes@, pos as int, root_bytes(w), 1, a);
            assert(root_bytes(w).subrange(1, a) =~= ab);
            lemma_sub(bytes@, pos as int, root_bytes(w), a, root_bytes(w).len() as int);
            assert(root_bytes(w).subrange(a, root_bytes(w).len() as int) =~= total);
        }
    }
    let (count, start) = if tag <= 8 {
        (tag as usize, pos + 1)
    } else {
        match read_varint(bytes, pos + 1) {
            None => {
                return Err(ReadError::InvalidFormat);
            },
            Some((v, p)) => {
                if v > (usize::MAX - 9) as u64 {
                    return Err(ReadError::InvalidFormat);
                }
                ((v + 9) as usize, p)
            },
        }
    };
    assert(bytes@.subrange(pos + 1, start as int) == arity_bytes(count as nat)) by {
        if tag <= 8 {
            assert(bytes@.subrange(pos + 1, start as int) =~= Seq::<u8>::empty());
        }
    }
    proof {
        if has {
            assert(count == fw.len());
            assert(start == pos + 1 + ab.len());
        }
    }
    let mut fields: Vec<(Vec<u8>, DynRootBranch)> = Vec::new();
    let mut cur: usize = start;
    let mut i: usize = 0;
    assert(bytes@.subrange(start as int, start as int) =~= Seq::<u8>::empty());
    while i < count
        invariant
            i <= count,
            start <= cur <= bytes@.len(),
            fields@.len() == i,
            root_fields_bytes(fields@, i as nat) == bytes@.subrange(start as int, cur as int),
            depth > 0,
            (!has) ==> forall|b: DynRootBranch|
                !(#[trigger] root_at(bytes@, pos as int, b) && root_within(b, depth as nat)),
            has ==> count == fw.len() && cur == start + root_fields_bytes(fw, i as nat).len()
                && start + total.len() <= bytes@.len() && bytes@.subrange(start as int, start + total.len())
                == total && total == root_fields_bytes(fw, fw.len()) && root_fields_within(
                fw,
                fw.len(),
                (depth - 1) as nat,
            ),
        decreases count - i,
    {
        proof {
            if has {
                lemma_field_at(bytes@, start as int, fw, i as int, (depth - 1) as nat);
            }
        }
        let (name, p) = read_name(bytes, cur)?;
        let (value, end) = parse_root(bytes, p, depth - 1)?;
        let ghost before = fields@;
        fields.push((name, value));
        proof {
            lemma_fields_prefix(before, fields@, i as nat);
            assert(bytes@.subrange(start as int, end as int) =~= bytes@.subrange(start as int, cur as int)
                + bytes@.subrange(cur as int, p as int) + bytes@.subrange(p as int, end as int));
        }
        cur = end;
        i = i + 1;
    }
    proof {
        assert(object_tag(count as nat) == tag);
        assert(bytes@.subrange(pos as int, cur as int) =~= seq![tag] + bytes@.subrange(pos + 1, start as int)
            + bytes@.subrange(start as int, cur as int));
        if has {
            assert forall|b: DynRootBranch|
                #[trigger] root_at(bytes@, pos as int, b) && root_within(b, depth as nat) implies root_bytes(b)
                == root_bytes(w) by {
                lemma_root_at_unique(bytes@, pos as int, b, w, depth as nat, depth as nat);
            }
        }
    }
    Ok((DynRootBranch::Object { fields }, cur))
}

/// Parses the standalone value at `pos`, nesting at most `depth` levels.
/// What it returns is exactly what the bytes it consumed encode; and where
/// those bytes start with the encoding of a value that nests no deeper, it
/// succeeds and consumes exactly that encoding.
#[verifier::rlimit(60)]
pub fn parse_root(bytes: &[u8], pos: usize, depth: usize) -> (r: Result<(DynRootBranch, usize), ReadError>)
    ensures
        r matches Ok((b, end)) ==> pos < end <= bytes@.len() && bytes@.subrange(pos as int, end as int)
            == root_bytes(b),
        r matches Err(e) ==> e == ReadError::InvalidFormat,
        depth == 0 || pos >= bytes@.len() ==> r is Err,
        depth > 0 && pos < bytes@.len() && bytes@[pos as int] == 11 ==> (r matches Ok((b, end)) && b == DynRootBranch::Boolean(true) && end == pos + 1),
        depth > 0 && pos < bytes@.len() && bytes@[pos as int] == 12 ==> (r matches Ok((b, end)) && b == DynRootBranch::Boolean(false) && end == pos + 1),
        depth > 0 && pos < bytes@.len() && bytes@[pos as int] > 13 ==> r is Err,
        forall|v: u64|
            depth > 0 && #[trigger] integer_at(bytes@, pos as int, v) ==> (r matches Ok((b, end)) && b
                == DynRootBranch::Integer(v) && end == pos + 1 + varint_bytes(v).len()),
        forall|b: DynRootBranch|
            #[trigger] root_at(bytes@, pos as int, b) && root_within(b, depth as nat) ==> (r matches Ok((c, end))
                && end == pos + root_bytes(b).len()),
    decreases depth, 1nat,
{
    let ghost has = exists|b: DynRootBranch| #[trigger] root_at(bytes@, pos as int, b) && root_within(b, depth as nat);
    let ghost w = if has {
        choose|b: DynRootBranch| #[trigger] root_at(bytes@, pos as int, b) && root_within(b, depth as nat)
    } else {
        DynRootBranch::Boolean(true)
    };
    proof {
        if has {
            lemma_root_tag(w);
            assert forall|b: DynRootBranch|
                #[trigger] root_at(bytes@, pos as int, b) && root_within(b, depth as nat) implies root_bytes(b)
                == root_bytes(w) by {
                lemma_root_at_unique(bytes@, pos as int, b, w, depth as nat, depth as nat);
            }
        }
    }
    if depth == 0 || pos >= bytes.len() {
        return Err(ReadError::InvalidFormat);
    }
    let tag = bytes[pos];
    proof {
        if has {
            assert(root_bytes(w)[0] == bytes@[pos as int]);
        }
    }
    let t = match RootTypeId::from_byte(tag) {
        None => {
            return Err(ReadError::InvalidFormat);
        },
        Some(t) => t,
    };
    match t {
        RootTypeId::True => Ok((DynRootBranch::Boolean(true), pos + 1)),
        RootTypeId::False => Ok((DynRootBranch::Boolean(false), pos + 1)),
        RootTypeId::U64 => {
            proof {
                if has {
                    if let DynRootBranch::Integer(v) = w {
                        let k = varint_bytes(v).len() as int;
                        lemma_sub(bytes@, pos as int, root_bytes(w), 1, 1 + k);
                        assert(root_bytes(w).subrange(1, 1 + k) =~= varint_bytes(v));
                        assert(integer_at(bytes@, pos as int, v));
                    }
                }
            }
            match read_varint(bytes, pos + 1) {
                None => Err(ReadError::InvalidFormat),
                Some((v, end)) => {
                    assert(bytes@.subrange(pos as int, end as int) =~= seq![13u8] + bytes@.subrange(
                        pos + 1,
                        end as int,
                    ));
                    Ok((DynRootBranch::Integer(v), end))
                },
            }
        },
        RootTypeId::Enum => {
            proof {
                if has {
                    if let DynRootBranch::Enum { discriminant: m, value: val } = w {
                        let k = name_bytes(m@).len() as int;
                        let q = root_bytes(*val).len() as int;
                        assert(root_bytes(w) =~= seq![10u8] + name_bytes(m@) + root_bytes(*val));
                        lemma_sub(bytes@, pos as int, root_bytes(w), 1, 1 + k);
                        assert(root_bytes(w).subrange(1, 1 + k) =~= name_bytes(m@));
                        assert(name_at(bytes@, pos + 1, m@));
                        lemma_sub(bytes@, pos as int, root_bytes(w), 1 + k, 1 + k + q);
                        assert(root_bytes(w).subrange(1 + k, 1 + k + q) =~= root_bytes(*val));
                        assert(root_at(bytes@, pos + 1 + k, *val));
                    }
                }
            }
            let (name, p) = read_name(bytes, pos + 1)?;
            let (value, end) = parse_root(bytes, p, depth - 1)?;
            assert(bytes@.subrange(pos as int, end as int) =~= seq![10u8] + bytes@.subrange(
                pos + 1,
                p as int,
            ) + bytes@.subrange(p as int, end as int));
            let b = DynRootBranch::Enum { discriminant: name, value: Box::new(value) };
            Ok((b, end))
        },
        _ => parse_object(bytes, pos, depth),
    }
}

proof fn lemma_array_fields_prefix(
    s: Seq<(Vec<u8>, DynArrayBranch)>,
    t: Seq<(Vec<u8>, DynArrayBranch)>,
    i: nat,
)
    requires
        i <= s.len(),
        i <= t.len(),
        forall|j: int| 0 <= j < i ==> s[j] == t[j],
    ensures
        array_fields_bytes(s, i) == array_fields_bytes(t, i),
        array_fields_wf(s, i) == array_fields_wf(t, i),
    decreases i,
{
    if i > 0 {
        lemma_array_fields_prefix(s, t, (i - 1) as nat);
    }
}

proof fn lemma_array_fields_bytes_prefix(s: Seq<(Vec<u8>, DynArrayBranch)>, j: nat, k: nat)
    requires
        j <= k <= s.len(),
    ensures
        array_fields_bytes(s, j).len() <= array_fields_bytes(s, k).len(),
        array_fields_bytes(s, k).subrange(0, array_fields_bytes(s, j).len() as int) == array_fields_bytes(s, j),
    decreases k,
{
    if j < k {
        lemma_array_fields_bytes_prefix(s, j, (k - 1) as nat);
        let a = array_fields_bytes(s, j);
        let b = array_fields_bytes(s, (k - 1) as nat);
        assert(array_fields_bytes(s, k).subrange(0, a.len() as int) =~= b.subrange(0, a.len() as int));
    } else {
        assert(array_fields_bytes(s, k).subrange(0, array_fields_bytes(s, k).len() as int) =~= array_fields_bytes(s, k));
    }
}

proof fn lemma_array_fields_within_at(s: Seq<(Vec<u8>, DynArrayBranch)>, k: nat, d: nat, j: int)
    requires
        array_fields_within(s, k, d),
        0 <= j < k <= s.len(),
    ensures
        s[j].0@.len() <= usize::MAX,
        array_within(s[j].1, d),
    decreases k,
{
    if j < k - 1 {
        lemma_array_fields_within_at(s, (k - 1) as nat, d, j);
    }
}

/// At `pos` stand the bytes of the column `b`.
pub open spec fn array_at(bytes: Seq<u8>, pos: int, b: DynArrayBranch) -> bool {
    &&& 0 <= pos
    &&& pos + array_bytes(b).len() <= bytes.len()
    &&& bytes.subrange(pos, pos + array_bytes(b).len()) == array_bytes(b)
}

/// At `start` stand the bytes of the named columns `fw`.
pub open spec fn array_fields_at(bytes: Seq<u8>, start: int, fw: Seq<(Vec<u8>, DynArrayBranch)>) -> bool {
    let t = array_fields_bytes(fw, fw.len());
    &&& 0 <= start
    &&& start + t.len() <= bytes.len()
    &&& bytes.subrange(start, start + t.len()) == t
}

proof fn lemma_array_field_at(bytes: Seq<u8>, start: int, fw: Seq<(Vec<u8>, DynArrayBranch)>, i: int, d: nat)
    requires
        array_fields_at(bytes, start, fw),
        0 <= i < fw.len(),
        array_fields_within(fw, fw.len(), d),
    ensures
        fw[i].0@.len() <= usize::MAX,
        array_within(fw[i].1, d),
        name_at(bytes, start + array_fields_bytes(fw, i as nat).len(), fw[i].0@),
        array_at(bytes, start + array_fields_bytes(fw, i as nat).len() + name_bytes(fw[i].0@).len(), fw[i].1),
        array_fields_bytes(fw, (i + 1) as nat).len() == array_fields_bytes(fw, i as nat).len() + name_bytes(
            fw[i].0@,
        ).len() + array_bytes(fw[i].1).len(),
{
    lemma_array_fields_bytes_prefix(fw, (i + 1) as nat, fw.len());
    lemma_array_fields_within_at(fw, fw.len(), d, i);
    let total = array_fields_bytes(fw, fw.len());
    let before = array_fields_bytes(fw, i as nat);
    let nb = name_bytes(fw[i].0@);
    let rb = array_bytes(fw[i].1);
    let upto = array_fields_bytes(fw, (i + 1) as nat);
    assert(upto == before + nb + rb);
    let x = before.len() as int;
    let y = x + nb.len();
    let z = y + rb.len();
    lemma_sub(bytes, start, total, x, y);
    lemma_sub(bytes, start, total, y, z);
    assert(total.subrange(x, y) =~= upto.subrange(x, y));
    assert(upto.subrange(x, y) =~= nb);
    assert(total.subrange(y, z) =~= upto.subrange(y, z));
    assert(upto.subrange(y, z) =~= rb);
}

proof fn lemma_array_at_unique(bytes: Seq<u8>, pos: int, a: DynArrayBranch, b: DynArrayBranch, da: nat, db: nat)
    requires
        array_at(bytes, pos, a),
        array_at(bytes, pos, b),
        array_within(a, da),
        array_within(b, db),
    ensures
        array_bytes(a) == array_bytes(b),
{
    let t1 = bytes.subrange(pos + array_bytes(a).len(), bytes.len() as int);
    let t2 = bytes.subrange(pos + array_bytes(b).len(), bytes.len() as int);
    assert(bytes.subrange(pos, bytes.len() as int) =~= array_bytes(a) + t1);
    assert(bytes.subrange(pos, bytes.len() as int) =~= array_bytes(b) + t2);
    lemma_array_prefix_free(a, b, t1, t2, da, db);
}

proof fn lemma_array_fields_at_unique(
    bytes: Seq<u8>,
    start: int,
    a: Seq<(Vec<u8>, DynArrayBranch)>,
    b: Seq<(Vec<u8>, DynArrayBranch)>,
    d: nat,
)
    requires
        a.len() == b.len(),
        array_fields_at(bytes, start, a),
        array_fields_at(bytes, start, b),
        array_fields_within(a, a.len(), d),
        array_fields_within(b, b.len(), d),
    ensures
        array_fields_bytes(a, a.len()) == array_fields_bytes(b, b.len()),
{
    let ta = array_fields_bytes(a, a.len());
    let tb = array_fields_bytes(b, b.len());
    let t1 = bytes.subrange(start + ta.len(), bytes.len() as int);
    let t2 = bytes.subrange(start + tb.len(), bytes.len() as int);
    assert(bytes.subrange(start, bytes.len() as int) =~= ta + t1);
    assert(bytes.subrange(start, bytes.len() as int) =~= tb + t2);
    lemma_array_fields_prefix_free(a, b, a.len(), t1, t2, d, d);
}

/// Reads `count` named columns from `start`, each nested at most `depth` levels.
#[verifier::rlimit(60)]
fn parse_array_fields(bytes: &[u8], start: usize, count: usize, depth: usize) -> (r: Result<
    (Vec<(Vec<u8>, DynArrayBranch)>, usize),
    ReadError,
>)
    ensures
        r matches Ok((fields, end)) ==> start <= end <= bytes@.len() && fields@.len() == count
            && bytes@.subrange(start as int, end as int) == array_fields_bytes(fields@, count as nat)
            && array_fields_wf(fields@, count as nat),
        r matches Err(e) ==> e == ReadError::InvalidFormat,
        forall|fw: Seq<(Vec<u8>, DynArrayBranch)>|
            fw.len() == count && #[trigger] array_fields_at(bytes@, start as int, fw) && array_fields_within(
                fw,
                count as nat,
                depth as nat,
            ) ==> (r matches Ok((f, end)) && end == start + array_fields_bytes(fw, count as nat).len()),
    decreases depth, 3nat,
{
    let ghost has = exists|fw: Seq<(Vec<u8>, DynArrayBranch)>|
        fw.len() == count && #[trigger] array_fields_at(bytes@, start as int, fw) && array_fields_within(
            fw,
            count as nat,
            depth as nat,
        );
    let ghost w = if has {
        choose|fw: Seq<(Vec<u8>, DynArrayBranch)>|
            fw.len() == count && #[trigger] array_fields_at(bytes@, start as int, fw) && array_fields_within(
                fw,
                count as nat,
                depth as nat,
            )
    } else {
        Seq::<(Vec<u8>, DynArrayBranch)>::empty()
    };
    proof {
        if has {
            assert forall|fw: Seq<(Vec<u8>, DynArrayBranch)>|
                fw.len() == count && #[trigger] array_fields_at(bytes@, start as int, fw) && array_fields_within(
                    fw,
                    count as nat,
                    depth as nat,
                ) implies array_fields_bytes(fw, count as nat) == array_fields_bytes(w, count as nat) by {
                lemma_array_fields_at_unique(bytes@, start as int, fw, w, depth as nat);
            }
        }
    }
    if start > bytes.len() {
        return Err(ReadError::InvalidFormat);
    }
    let mut fields: Vec<(Vec<u8>, DynArrayBranch)> = Vec::new();
    let mut cur: usize = start;
    let mut i: usize = 0;
    assert(bytes@.subrange(start as int, start as int) =~= Seq::<u8>::empty());
    while i < count
        invariant
            i <= count,
            start <= cur <= bytes@.len(),
            fields@.len() == i,
            array_fields_bytes(fields@, i as nat) == bytes@.subrange(start as int, cur as int),
            array_fields_wf(fields@, i as nat),
            (!has) ==> forall|fw: Seq<(Vec<u8>, DynArrayBranch)>|
                !(fw.len() == count && #[trigger] array_fields_at(bytes@, start as int, fw) && array_fields_within(
                    fw,
                    count as nat,
                    depth as nat,
                )),
            has ==> w.len() == count && array_fields_at(bytes@, start as int, w) && array_fields_within(
                w,
                count as nat,
                depth as nat,
            ) && cur == start + array_fields_bytes(w, i as nat).len(),
        decreases count - i,
    {
        proof {
            if has {
                lemma_array_field_at(bytes@, start as int, w, i as int, depth as nat);
            }
        }
        let (name, p) = read_name(bytes, cur)?;
        let (value, end) = parse_array(bytes, p, depth)?;
        let ghost before = fields@;
        fields.push((name, value));
        proof {
            lemma_array_fields_prefix(before, fields@, i as nat);
            assert(bytes@.subrange(start as int, end as int) =~= bytes@.subrange(start as int, cur as int)
                + bytes@.subrange(cur as int, p as int) + bytes@.subrange(p as int, end as int));
        }
        cur = end;
        i = i + 1;
    }
    Ok((fields, cur))
}

/// At `pos` stand a boolean column's tag, the count `c`, and room for `c` packed booleans.
pub open spec fn bool_column_at(bytes: Seq<u8>, pos: int, c: u64) -> bool {
    &&& 0 <= pos < bytes.len()
    &&& bytes[pos] == 11
    &&& pos + 1 + varint_bytes(c).len() + packed_len(c as nat) <= bytes.len()
    &&& bytes.subrange(pos + 1, pos + 1 + varint_bytes(c).len()) == varint_bytes(c)
    &&& c <= usize::MAX
}

/// Parses the payload of a packed boolean column whose tag stands at `pos`.
fn parse_bool_column(bytes: &[u8], pos: usize) -> (r: Result<(DynArrayBranch, usize), ReadError>)
    requires
        pos < bytes.len(),
        bytes@[pos as int] == 11,
    ensures
        r matches Ok((b, end)) ==> pos < end <= bytes@.len() && bytes@.subrange(pos as int, end as int)
            == array_bytes(b) && array_wf(b),
        r matches Err(e) ==> e == ReadError::InvalidFormat,
        forall|c: u64|
            #[trigger] bool_column_at(bytes@, pos as int, c) ==> (r matches Ok((b, end)) && b
                matches DynArrayBranch::Boolean { count, bytes: packed } && count == c && end == pos + 1
                + varint_bytes(c).len() + packed_len(c as nat) && packed@ == bytes@.subrange(
                pos + 1 + varint_bytes(c).len(),
                end as int,
            )),
{
    let (count, p) = match read_varint(bytes, pos + 1) {
        None => {
            return Err(ReadError::InvalidFormat);
        },
        Some(x) => x,
    };
    if count > usize::MAX as u64 {
        return Err(ReadError::InvalidFormat);
    }
    let count = count as usize;
    let nbytes = count / 8 + if count % 8 == 0 { 0 } else { 1 };
    assert(nbytes == packed_len(count as nat));
    if nbytes > bytes.len() - p {
        return Err(ReadError::InvalidFormat);
    }
    let mut packed: Vec<u8> = Vec::new();
    let mut i: usize = 0;
    while i < nbytes
        invariant
            i <= nbytes,
            p + nbytes <= bytes@.len(),
            bytes@.len() == bytes.len(),
            packed@ == bytes@.subrange(p as int, p + i),
        decreases nbytes - i,
    {
        packed.push(bytes[p + i]);
        assert(packed@ =~= bytes@.subrange(p as int, p + i + 1));
        i = i + 1;
    }
    let end = p + nbytes;
    assert(bytes@.subrange(pos as int, end as int) =~= seq![11u8] + bytes@.subrange(
        pos + 1,
        p as int,
    ) + packed@);
    Ok((DynArrayBranch::Boolean { count, bytes: packed }, end))
}

/// At `pos` stand an integer column's tag, its count, and the varints of `vs`.
pub open spec fn u64_column_at(bytes: Seq<u8>, pos: int, vs: Seq<u64>) -> bool {
    let col = seq![12u8] + varint_bytes(vs.len() as u64) + varints_bytes(vs);
    &&& 0 <= pos
    &&& vs.len() <= usize::MAX
    &&& pos + col.len() <= bytes.len()
    &&& bytes.subrange(pos, pos + col.len()) == col
}

proof fn lemma_varints_prefix(vs: Seq<u64>, i: int)
    requires
        0 <= i < vs.len(),
    ensures
        varints_bytes(vs.subrange(0, i + 1)) == varints_bytes(vs.subrange(0, i)) + varint_bytes(vs[i]),
        varints_bytes(vs.subrange(0, i + 1)).len() <= varints_bytes(vs).len(),
        varints_bytes(vs).subrange(0, varints_bytes(vs.subrange(0, i + 1)).len() as int) == varints_bytes(
            vs.subrange(0, i + 1),
        ),
    decreases vs.len(),
{
    assert(vs.subrange(0, i + 1).drop_last() =~= vs.subrange(0, i));
    if i + 1 < vs.len() {
        lemma_varints_prefix(vs.drop_last(), i);
        assert(vs.drop_last().subrange(0, i + 1) =~= vs.subrange(0, i + 1));
        let a = varints_bytes(vs.subrange(0, i + 1));
        let b = varints_bytes(vs.drop_last());
        assert(varints_bytes(vs).subrange(0, a.len() as int) =~= b.subrange(0, a.len() as int));
    } else {
        assert(vs.subrange(0, i + 1) =~= vs);
        assert(varints_bytes(vs).subrange(0, varints_bytes(vs).len() as int) =~= varints_bytes(vs));
    }
}

proof fn lemma_u64_column_unique(bytes: Seq<u8>, pos: int, w: Seq<u64>, u: Seq<u64>)
    requires
        u64_column_at(bytes, pos, w),
        u64_column_at(bytes, pos, u),
    ensures
        u == w,
{
    let wb = varints_bytes(w);
    let k = varint_bytes(w.len() as u64).len() as int;
    let col = seq![12u8] + varint_bytes(w.len() as u64) + wb;
    let cu = seq![12u8] + varint_bytes(u.len() as u64) + varints_bytes(u);
    let t1 = bytes.subrange(pos + col.len(), bytes.len() as int);
    let t2 = bytes.subrange(pos + cu.len(), bytes.len() as int);
    let whole = bytes.subrange(pos + 1, bytes.len() as int);
    lemma_sub(bytes, pos, cu, 1, cu.len() as int);
    assert(cu.subrange(1, cu.len() as int) =~= varint_bytes(u.len() as u64) + varints_bytes(u));
    lemma_sub(bytes, pos, col, 1, col.len() as int);
    assert(col.subrange(1, col.len() as int) =~= varint_bytes(w.len() as u64) + wb);
    assert(whole =~= varint_bytes(w.len() as u64) + (wb + t1));
    assert(whole =~= varint_bytes(u.len() as u64) + (varints_bytes(u) + t2));
    lemma_varint_prefix_free(w.len() as u64, u.len() as u64, wb + t1, varints_bytes(u) + t2);
    assert(whole.subrange(k, whole.len() as int) =~= wb + t1);
    assert(whole.subrange(k, whole.len() as int) =~= varints_bytes(u) + t2);
    lemma_varints_prefix_free(w, u, t1, t2);
}

/// Parses the payload of an integer column whose tag stands at `pos`.
fn parse_u64_column(bytes: &[u8], pos: usize) -> (r: Result<(DynArrayBranch, usize), ReadError>)
    requires
        pos < bytes.len(),
        bytes@[pos as int] == 12,
    ensures
        r matches Ok((b, end)) ==> pos < end <= bytes@.len() && bytes@.subrange(pos as int, end as int)
            == array_bytes(b) && array_wf(b),
        r matches Err(e) ==> e == ReadError::InvalidFormat,
        forall|vs: Seq<u64>|
            #[trigger] u64_column_at(bytes@, pos as int, vs) ==> (r matches Ok((b, end)) && end == pos + 1
                + varint_bytes(vs.len() as u64).len() + varints_bytes(vs).len()),
{
    let ghost has = exists|vs: Seq<u64>| #[trigger] u64_column_at(bytes@, pos as int, vs);
    let ghost w = if has {
        choose|vs: Seq<u64>| #[trigger] u64_column_at(bytes@, pos as int, vs)
    } else {
        Seq::<u64>::empty()
    };
    let ghost wb = varints_bytes(w);
    let ghost k = varint_bytes(w.len() as u64).len() as int;
    proof {
        if has {
            let col = seq![12u8] + varint_bytes(w.len() as u64) + wb;
            lemma_sub(bytes@, pos as int, col, 1, 1 + k);
            assert(col.subrange(1, 1 + k) =~= varint_bytes(w.len() as u64));
            lemma_sub(bytes@, pos as int, col, 1 + k, col.len() as int);
            assert(col.subrange(1 + k, col.len() as int) =~= wb);
            assert forall|u: Seq<u64>| #[trigger] u64_column_at(bytes@, pos as int, u) implies u == w by {
                lemma_u64_column_unique(bytes@, pos as int, w, u);
            }
        }
    }
    let (count, p) = match read_varint(bytes, pos + 1) {
        None => {
            return Err(ReadError::InvalidFormat);
        },
        Some(x) => x,
    };
    let mut vs: Vec<u64> = Vec::new();
    let mut cur: usize = p;
    let mut i: u64 = 0;
    assert(bytes@.subrange(p as int, p as int) =~= Seq::<u8>::empty());
    proof {
        if has {
            assert(count == w.len());
            assert(w.subrange(0, 0) =~= Seq::<u64>::empty());
        }
    }
    while i < count
        invariant
            i <= count,
            p <= cur <= bytes@.len(),
            vs@.len() == i,
            varints_bytes(vs@) == bytes@.subrange(p as int, cur as int),
            (!has) ==> forall|u: Seq<u64>| !#[trigger] u64_column_at(bytes@, pos as int, u),
            has ==> count == w.len() && p == pos + 1 + k && cur == p + varints_bytes(w.subrange(0, i as int)).len()
                && p + wb.len() <= bytes@.len() && bytes@.subrange(p as int, p + wb.len()) == wb
                && wb == varints_bytes(w),
        decreases count - i,
    {
        proof {
            if has {
                lemma_varints_prefix(w, i as int);
                let a = varints_bytes(w.subrange(0, i as int)).len() as int;
                let b = varints_bytes(w.subrange(0, i + 1)).len() as int;
                lemma_sub(bytes@, p as int, wb, a, b);
                assert(wb.subrange(a, b) =~= varints_bytes(w.subrange(0, i + 1)).subrange(a, b));
                assert(varints_bytes(w.subrange(0, i + 1)).subrange(a, b) =~= varint_bytes(w[i as int]));
            }
        }
        let (v, end) = match read_varint(bytes, cur) {
            None => {
                return Err(ReadError::InvalidFormat);
            },
            Some(x) => x,
        };
        let ghost before = vs@;
        vs.push(v);
        proof {
            assert(vs@.drop_last() =~= before);
            assert(bytes@.subrange(p as int, end as int) =~= bytes@.subrange(p as int, cur as int)
                + bytes@.subrange(cur as int, end as int));
        }
        cur = end;
        i = i + 1;
    }
    assert(bytes@.subrange(pos as int, cur as int) =~= seq![12u8] + bytes@.subrange(
        pos + 1,
        p as int,
    ) + bytes@.subrange(p as int, cur as int));
    proof {
        if has {
            assert(w.subrange(0, w.len() as int) =~= w);
        }
    }
    Ok((DynArrayBranch::Integer(vs), cur))
}

/// Parses the enum column whose tag stands at `pos`.
#[verifier::rlimit(60)]
fn parse_enum_column(bytes: &[u8], pos: usize, depth: usize) -> (r: Result<(DynArrayBranch, usize), ReadError>)
    requires
        depth > 0,
        pos < bytes.len(),
        bytes@[pos as int] == 10,
    ensures
        r matches Ok((b, end)) ==> pos < end <= bytes@.len() && bytes@.subrange(pos as int, end as int)
            == array_bytes(b) && array_wf(b),
        r matches Err(e) ==> e == ReadError::InvalidFormat,
        forall|b: DynArrayBranch|
            #[trigger] array_at(bytes@, pos as int, b) && array_within(b, depth as nat) && b is Enum ==> (r matches Ok((c, end))
                && end == pos + array_bytes(b).len()),
    decreases depth, 1nat,
{
    let ghost has = exists|b: DynArrayBranch| #[trigger] array_at(bytes@, pos as int, b) && array_within(b, depth as nat) && b is Enum;
    let ghost w = if has {
        choose|b: DynArrayBranch| #[trigger] array_at(bytes@, pos as int, b) && array_within(b, depth as nat) && b is Enum
    } else {
        arbitrary()
    };
    proof {
        if has {
            assert forall|b: DynArrayBranch|
                #[trigger] array_at(bytes@, pos as int, b) && array_within(b, depth as nat) && b is Enum implies array_bytes(b)
                == array_bytes(w) by {
                lemma_array_at_unique(bytes@, pos as int, b, w, depth as nat, depth as nat);
            }
            if let DynArrayBranch::Enum { discriminants: dw, variants: vw } = w {
                let ab = array_bytes(w);
                let k = varint_bytes(vw.len() as u64).len() as int;
                let q = array_bytes(*dw).len() as int;
                assert(ab =~= seq![10u8] + varint_bytes(vw.len() as u64) + array_bytes(*dw) + array_fields_bytes(vw@, vw.len() as nat));
                lemma_sub(bytes@, pos as int, ab, 1, 1 + k);
                assert(ab.subrange(1, 1 + k) =~= varint_bytes(vw.len() as u64));
                lemma_sub(bytes@, pos as int, ab, 1 + k, 1 + k + q);
                assert(ab.subrange(1 + k, 1 + k + q) =~= array_bytes(*dw));
                assert(array_at(bytes@, pos + 1 + k, *dw));
                lemma_sub(bytes@, pos as int, ab, 1 + k + q, ab.len() as int);
                assert(ab.subrange(1 + k + q, ab.len() as int) =~= array_fields_bytes(vw@, vw.len() as nat));
                assert(array_fields_at(bytes@, pos + 1 + k + q, vw@));
            }
        }
    }
    let (n, p) = match read_varint(bytes, pos + 1) {
        None => {
            return Err(ReadError::InvalidFormat);
        },
        Some(x) => x,
    };
    if n > usize::MAX as u64 {
        return Err(ReadError::InvalidFormat);
    }
    let (discriminants, q) = parse_array(bytes, p, depth - 1)?;
    let (variants, end) = parse_array_fields(bytes, q, n as usize, depth - 1)?;
    assert(bytes@.subrange(pos as int, end as int) =~= seq![10u8] + bytes@.subrange(pos + 1, p as int)
        + bytes@.subrange(p as int, q as int) + bytes@.subrange(q as int, end as int));
    Ok((DynArrayBranch::Enum { discriminants: Box::new(discriminants), variants }, end))
}

/// Parses the object column whose tag stands at `pos`.
#[verifier::rlimit(60)]
fn parse_object_column(bytes: &[u8], pos: usize, depth: usize) -> (r: Result<(DynArrayBranch, usize), ReadError>)
    requires
        depth > 0,
        pos < bytes.len(),
        bytes@[pos as int] <= 9,
    ensures
        r matches Ok((b, end)) ==> pos < end <= bytes@.len() && bytes@.subrange(pos as int, end as int)
            == array_bytes(b) && array_wf(b),
        r matches Err(e) ==> e == ReadError::InvalidFormat,
        forall|b: DynArrayBranch|
            #[trigger] array_at(bytes@, pos as int, b) && array_within(b, depth as nat) ==> (r matches Ok((c, end))
                && end == pos + array_bytes(b).len()),
    decreases depth, 1nat,
{
    let tag = bytes[pos];
    let ghost has = exists|b: DynArrayBranch| #[trigger] array_at(bytes@, pos as int, b) && array_within(b, depth as nat);
    let ghost w = if has {
        choose|b: DynArrayBranch| #[trigger] array_at(bytes@, pos as int, b) && array_within(b, depth as nat)
    } else {
        arbitrary()
    };
    proof {
        if has {
            assert forall|b: DynArrayBranch|
                #[trigger] array_at(bytes@, pos as int, b) && array_within(b, depth as nat) implies array_bytes(b)
                == array_bytes(w) by {
                lemma_array_at_unique(bytes@, pos as int, b, w, depth as nat, depth as nat);
            }
            let ab = array_bytes(w);
            assert(ab[0] == bytes@[pos as int]);
            assert(w is Object);
            if let DynArrayBranch::Object { fields: fw } = w {
                let ar = arity_bytes(fw.len() as nat);
                let k = ar.len() as int;
                assert(ab =~= seq![tag] + ar + array_fields_bytes(fw@, fw.len() as nat));
                lemma_sub(bytes@, pos as int, ab, 1, 1 + k);
                assert(ab.subrange(1, 1 + k) =~= ar);
                lemma_sub(bytes@, pos as int, ab, 1 + k, ab.len() as int);
                assert(ab.subrange(1 + k, ab.len() as int) =~= array_fields_bytes(fw@, fw.len() as nat));
                assert(array_fields_at(bytes@, pos + 1 + k, fw@));
            }
        }
    }
    let (count, start) = if tag <= 8 {
        (tag as usize, pos + 1)
    } else {
        match read_varint(bytes, pos + 1) {
            None => {
                return Err(ReadError::InvalidFormat);
            },
            Some((v, p)) => {
                if v > (usize::MAX - 9) as u64 {
                    return Err(ReadError::InvalidFormat);
                }
                ((v + 9) as usize, p)
            },
        }
    };
    assert(bytes@.subrange(pos + 1, start as int) == arity_bytes(count as nat)) by {
        if tag <= 8 {
            assert(bytes@.subrange(pos + 1, start as int) =~= Seq::<u8>::empty());
        }
    }
    let (fields, end) = parse_array_fields(bytes, start, count, depth - 1)?;
    proof {
        assert(object_tag(count as nat) == tag);
        assert(bytes@.subrange(pos as int, end as int) =~= seq![tag] + bytes@.subrange(pos + 1, start as int)
            + bytes@.subrange(start as int, end as int));
    }
    Ok((DynArrayBranch::Object { fields }, end))
}

/// Parses the column at `pos`, nesting at most `depth` levels.
/// What it returns is exactly what the bytes it consumed encode, and well
/// formed; and where those bytes start with the encoding of a column that
/// nests no deeper, it succeeds and consumes exactly that encoding.
#[verifier::rlimit(60)]
pub fn parse_array(bytes: &[u8], pos: usize, depth: usize) -> (r: Result<(DynArrayBranch, usize), ReadError>)
    ensures
        r matches Ok((b, end)) ==> pos < end <= bytes@.len() && bytes@.subrange(pos as int, end as int)
            == array_bytes(b) && array_wf(b),
        r matches Err(e) ==> e == ReadError::InvalidFormat,
        depth == 0 || pos >= bytes@.len() ==> r is Err,
        depth > 0 && pos < bytes@.len() && bytes@[pos as int] > 12 ==> r is Err,
        forall|c: u64|
            depth > 0 && #[trigger] bool_column_at(bytes@, pos as int, c) ==> (r matches Ok((b, end))
                && b matches DynArrayBranch::Boolean { count, bytes: packed } && count == c && end
                == pos + 1 + varint_bytes(c).len() + packed_len(c as nat) && packed@
                == bytes@.subrange(pos + 1 + varint_bytes(c).len(), end as int)),
        forall|b: DynArrayBranch|
            #[trigger] array_at(bytes@, pos as int, b) && array_within(b, depth as nat) ==> (r matches Ok((c, end))
                && end == pos + array_bytes(b).len()),
    decreases depth, 2nat,
{
    let ghost has = exists|b: DynArrayBranch| #[trigger] array_at(bytes@, pos as int, b) && array_within(b, depth as nat);
    let ghost w = if has {
        choose|b: DynArrayBranch| #[trigger] array_at(bytes@, pos as int, b) && array_within(b, depth as nat)
    } else {
        arbitrary()
    };
    proof {
        if has {
            assert forall|b: DynArrayBranch|
                #[trigger] array_at(bytes@, pos as int, b) && array_within(b, depth as nat) implies array_bytes(b)
                == array_bytes(w) by {
                lemma_array_at_unique(bytes@, pos as int, b, w, depth as nat, depth as nat);
            }
            assert(array_bytes(w).len() >= 1);
        }
    }
    if depth == 0 || pos >= bytes.len() {
        return Err(ReadError::InvalidFormat);
    }
    let tag = bytes[pos];
    proof {
        if has {
            let ab = array_bytes(w);
            assert(ab[0] == bytes@[pos as int]);
            match w {
                DynArrayBranch::Boolean { count, bytes: pk } => {
                    let k = varint_bytes(count as u64).len() as int;
                    lemma_sub(bytes@, pos as int, ab, 1, 1 + k);
                    assert(ab.subrange(1, 1 + k) =~= varint_bytes(count as u64));
                    assert(bool_column_at(bytes@, pos as int, count as u64));
                },
                DynArrayBranch::Integer(vs) => {
                    assert(u64_column_at(bytes@, pos as int, vs@));
                },
                _ => {},
            }
        }
    }
    let t = match ArrayTypeId::from_byte(tag) {
        None => {
            return Err(ReadError::InvalidFormat);
        },
        Some(t) => t,
    };
    match t {
        ArrayTypeId::Boolean => parse_bool_column(bytes, pos),
        ArrayTypeId::U64 => parse_u64_column(bytes, pos),
        ArrayTypeId::Enum => parse_enum_column(bytes, pos, depth),
        _ => parse_object_column(bytes, pos, depth),
    }
}

} // verus!
