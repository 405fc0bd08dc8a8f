//! Schema-agnostic decoded trees, and the bytes that each tree stands for.
use vstd::prelude::*;
use crate::packed_bool::packed_len;
use crate::varint::{lemma_varint_prefix_free, varint_bytes};

verus! {

/// One decoded standalone value, before any type gives it meaning.
#[derive(Debug, PartialEq, Eq)]
pub enum DynRootBranch {
    /// Named fields, in the order they were written.
    Object { fields: Vec<(Vec<u8>, DynRootBranch)> },
    /// A variant name and its payload.
    Enum { discriminant: Vec<u8>, value: Box<DynRootBranch> },
    Boolean(bool),
    Integer(u64),
}

/// One decoded column, before any type gives it meaning.
#[derive(Debug, PartialEq, Eq)]
pub enum DynArrayBranch {
    /// One column per named field.
    Object { fields: Vec<(Vec<u8>, DynArrayBranch)> },
    /// A column of variant indices, and one column per declared variant.
    Enum { discriminants: Box<DynArrayBranch>, variants: Vec<(Vec<u8>, DynArrayBranch)> },
    /// `count` booleans, packed eight to a byte.
    Boolean { count: usize, bytes: Vec<u8> },
    Integer(Vec<u64>),
}

/// A name on the wire: its length as a varint, then its bytes.
pub open spec fn name_bytes(n: Seq<u8>) -> Seq<u8> {
    varint_bytes(n.len() as u64) + n
}

/// The tag byte of an object with `n` fields.
pub open spec fn object_tag(n: nat) -> u8 {
    if n <= 8 { n as u8 } else { 9 }
}

/// What follows an object tag before the fields: the count beyond nine, for the generic tag.
pub open spec fn arity_bytes(n: nat) -> Seq<u8> {
    if n <= 8 { Seq::empty() } else { varint_bytes((n - 9) as u64) }
}

/// The bytes of a standalone value.
pub open spec fn root_bytes(b: DynRootBranch) -> Seq<u8>
    decreases b, 0nat,
{
    match b {
        DynRootBranch::Boolean(v) => if v { seq![11u8] } else { seq![12u8] },
        DynRootBranch::Integer(n) => seq![13u8] + varint_bytes(n),
        DynRootBranch::Object { fields } => seq![object_tag(fields.len() as nat)] + arity_bytes(
            fields.len() as nat,
        ) + root_fields_bytes(fields@, fields.len() as nat),
        DynRootBranch::Enum { discriminant, value } => seq![10u8] + name_bytes(discriminant@)
            + root_bytes(*value),
    }
}

/// The bytes of the first `i` fields of an object.
pub open spec fn root_fields_bytes(s: Seq<(Vec<u8>, DynRootBranch)>, i: nat) -> Seq<u8>
    decreases s, i,
{
    if i == 0 || i > s.len() {
        Seq::empty()
    } else {
        root_fields_bytes(s, (i - 1) as nat) + name_bytes(s[i - 1].0@) + root_bytes(s[i - 1].1)
    }
}

/// `b` nests at most `d` levels, and each name and field list in it is no
/// longer than memory allows.
pub open spec fn root_within(b: DynRootBranch, d: nat) -> bool
    decreases b, 0nat,
{
    d > 0 && match b {
        DynRootBranch::Boolean(_) => true,
        DynRootBranch::Integer(_) => true,
        DynRootBranch::Object { fields } => fields.len() <= usize::MAX && root_fields_within(
            fields@,
            fields.len() as nat,
            (d - 1) as nat,
        ),
        DynRootBranch::Enum { discriminant, value } => discriminant.len() <= usize::MAX && root_within(
            *value,
            (d - 1) as nat,
        ),
    }
}

/// Each of the first `i` fields has a name no longer than memory allows and nests at most `d` levels.
pub open spec fn root_fields_within(s: Seq<(Vec<u8>, DynRootBranch)>, i: nat, d: nat) -> bool
    decreases s, i,
{
    if i == 0 || i > s.len() {
        true
    } else {
        root_fields_within(s, (i - 1) as nat, d) && s[i - 1].0@.len() <= usize::MAX && root_within(
            s[i - 1].1,
            d,
        )
    }
}

/// Names are prefix-free: equal bytes up to either's end mean equal names.
pub proof fn lemma_name_prefix_free(m: Seq<u8>, n: Seq<u8>, t1: Seq<u8>, t2: Seq<u8>)
    requires
        m.len() <= usize::MAX,
        n.len() <= usize::MAX,
        name_bytes(m) + t1 == name_bytes(n) + t2,
    ensures
        m == n,
{
    assert(name_bytes(m) + t1 =~= varint_bytes(m.len() as u64) + (m + t1));
    assert(name_bytes(n) + t2 =~= varint_bytes(n.len() as u64) + (n + t2));
    lemma_varint_prefix_free(m.len() as u64, n.len() as u64, m + t1, n + t2);
    let k = varint_bytes(m.len() as u64).len();
    let all = name_bytes(m) + t1;
    assert(m =~= all.subrange(k as int, k + m.len() as int));
    assert(n =~= all.subrange(k as int, k + n.len() as int));
}

/// Encodings of values are prefix-free: where one value's bytes and another's
/// agree up to either's end, the two encodings are the same.
pub proof fn lemma_root_prefix_free(
    a: DynRootBranch,
    b: DynRootBranch,
    t1: Seq<u8>,
    t2: Seq<u8>,
    da: nat,
    db: nat,
)
    requires
        root_within(a, da),
        root_within(b, db),
        root_bytes(a) + t1 == root_bytes(b) + t2,
    ensures
        root_bytes(a) == root_bytes(b),
    decreases a, 2nat,
{
    let all = root_bytes(a) + t1;
    assert(all[0] == root_bytes(a)[0]);
    assert(all[0] == root_bytes(b)[0]);
    match a {
        DynRootBranch::Boolean(_) => {},
        DynRootBranch::Integer(x) => {
            if let DynRootBranch::Integer(y) = b {
                let rest = all.subrange(1, all.len() as int);
                assert(rest =~= varint_bytes(x) + t1);
                assert(rest =~= varint_bytes(y) + t2);
                lemma_varint_prefix_free(x, y, t1, t2);
            }
        },
        DynRootBranch::Enum { .. } => {
            if b is Enum {
                lemma_enum_prefix_free(a, b, t1, t2, da, db);
            }
        },
        DynRootBranch::Object { .. } => {
            if b is Object {
                lemma_object_prefix_free(a, b, t1, t2, da, db);
            }
        },
    }
}

proof fn lemma_enum_prefix_free(a: DynRootBranch, b: DynRootBranch, t1: Seq<u8>, t2: Seq<u8>, da: nat, db: nat)
    requires
        a is Enum,
        b is Enum,
        root_within(a, da),
        root_within(b, db),
        root_bytes(a) + t1 == root_bytes(b) + t2,
    ensures
        root_bytes(a) == root_bytes(b),
    decreases a, 1nat,
{
    if let DynRootBranch::Enum { discriminant: ma, value: va } = a {
        if let DynRootBranch::Enum { discriminant: mb, value: vb } = b {
            let all = root_bytes(a) + t1;
            let rest = all.subrange(1, all.len() as int);
            assert(rest =~= name_bytes(ma@) + (root_bytes(*va) + t1));
            assert(rest =~= name_bytes(mb@) + (root_bytes(*vb) + t2));
            lemma_name_prefix_free(ma@, mb@, root_bytes(*va) + t1, root_bytes(*vb) + t2);
            let k = name_bytes(ma@).len();
            assert(rest.subrange(k as int, rest.len() as int) =~= root_bytes(*va) + t1);
            assert(rest.subrange(k as int, rest.len() as int) =~= root_bytes(*vb) + t2);
            lemma_root_prefix_free(*va, *vb, t1, t2, (da - 1) as nat, (db - 1) as nat);
        }
    }
}

proof fn lemma_object_prefix_free(a: DynRootBranch, b: DynRootBranch, t1: Seq<u8>, t2: Seq<u8>, da: nat, db: nat)
    requires
        a is Object,
        b is Object,
        root_within(a, da),
        root_within(b, db),
        root_bytes(a) + t1 == root_bytes(b) + t2,
    ensures
        root_bytes(a) == root_bytes(b),
    decreases a, 1nat,
{
    if let DynRootBranch::Object { fields: fa } = a {
        if let DynRootBranch::Object { fields: fb } = b {
            let all = root_bytes(a) + t1;
            let rest = all.subrange(1, all.len() as int);
            let na = fa.len() as nat;
            let nb = fb.len() as nat;
            let xa = root_fields_bytes(fa@, na) + t1;
            let xb = root_fields_bytes(fb@, nb) + t2;
            assert(rest =~= arity_bytes(na) + xa);
            assert(rest =~= arity_bytes(nb) + xb);
            assert(all[0] == object_tag(na) && all[0] == object_tag(nb));
            if na > 8 {
                lemma_varint_prefix_free((na - 9) as u64, (nb - 9) as u64, xa, xb);
            }
            assert(na == nb);
            assert(xa =~= rest.subrange(arity_bytes(na).len() as int, rest.len() as int));
            assert(xb =~= rest.subrange(arity_bytes(na).len() as int, rest.len() as int));
            lemma_root_fields_prefix_free(fa@, fb@, na, t1, t2, (da - 1) as nat, (db - 1) as nat);
        }
    }
}

/// Field lists of the same length are prefix-free too.
pub proof fn lemma_root_fields_prefix_free(
    s: Seq<(Vec<u8>, DynRootBranch)>,
    u: Seq<(Vec<u8>, DynRootBranch)>,
    i: nat,
    t1: Seq<u8>,
    t2: Seq<u8>,
    ds: nat,
    du: nat,
)
    requires
        i <= s.len(),
        i <= u.len(),
        root_fields_within(s, i, ds),
        root_fields_within(u, i, du),
        root_fields_bytes(s, i) + t1 == root_fields_bytes(u, i) + t2,
    ensures
        root_fields_bytes(s, i) == root_fields_bytes(u, i),
    decreases s, i,
{
    if i > 0 {
        let j = (i - 1) as nat;
        let x = name_bytes(s[j as int].0@) + root_bytes(s[j as int].1);
        let y = name_bytes(u[j as int].0@) + root_bytes(u[j as int].1);
        assert(root_fields_bytes(s, i) + t1 =~= root_fields_bytes(s, j) + (x + t1));
        assert(root_fields_bytes(u, i) + t2 =~= root_fields_bytes(u, j) + (y + t2));
        lemma_root_fields_prefix_free(s, u, j, x + t1, y + t2, ds, du);
        let all = root_fields_bytes(s, i) + t1;
        let k = root_fields_bytes(s, j).len();
        assert(all.subrange(k as int, all.len() as int) =~= x + t1);
        assert(all.subrange(k as int, all.len() as int) =~= y + t2);
        let ra = root_bytes(s[j as int].1);
        let rb = root_bytes(u[j as int].1);
        assert(x + t1 =~= name_bytes(s[j as int].0@) + (ra + t1));
        assert(y + t2 =~= name_bytes(u[j as int].0@) + (rb + t2));
        lemma_name_prefix_free(s[j as int].0@, u[j as int].0@, ra + t1, rb + t2);
        let m = name_bytes(s[j as int].0@).len();
        assert((x + t1).subrange(m as int, (x + t1).len() as int) =~= ra + t1);
        assert((y + t2).subrange(m as int, (y + t2).len() as int) =~= rb + t2);
        lemma_root_prefix_free(s[j as int].1, u[j as int].1, t1, t2, ds, du);
    }
}

/// The varints of `s`, one after another.
pub open spec fn varints_bytes(s: Seq<u64>) -> Seq<u8>
    decreases s.len(),
{
    if s.len() == 0 {
        Seq::empty()
    } else {
        varints_bytes(s.drop_last()) + varint_bytes(s.last())
    }
}

/// The bytes of a column.
pub open spec fn array_bytes(b: DynArrayBranch) -> Seq<u8>
    decreases b, 0nat,
{
    match b {
        DynArrayBranch::Boolean { count, bytes } => seq![11u8] + varint_bytes(count as u64) + bytes@,
        DynArrayBranch::Integer(vs) => seq![12u8] + varint_bytes(vs.len() as u64) + varints_bytes(vs@),
        DynArrayBranch::Object { fields } => seq![object_tag(fields.len() as nat)] + arity_bytes(
            fields.len() as nat,
        ) + array_fields_bytes(fields@, fields.len() as nat),
        DynArrayBranch::Enum { discriminants, variants } => seq![10u8] + varint_bytes(
            variants.len() as u64,
        ) + array_bytes(*discriminants) + array_fields_bytes(variants@, variants.len() as nat),
    }
}

/// The bytes of the first `i` named columns.
pub open spec fn array_fields_bytes(s: Seq<(Vec<u8>, DynArrayBranch)>, i: nat) -> Seq<u8>
    decreases s, i,
{
    if i == 0 || i > s.len() {
        Seq::empty()
    } else {
        array_fields_bytes(s, (i - 1) as nat) + name_bytes(s[i - 1].0@) + array_bytes(s[i - 1].1)
    }
}

/// Every packed boolean column in the tree holds exactly the bytes its count needs.
pub open spec fn array_wf(b: DynArrayBranch) -> bool
    decreases b, 0nat,
{
    match b {
        DynArrayBranch::Boolean { count, bytes } => bytes@.len() == packed_len(count as nat),
        DynArrayBranch::Integer(_) => true,
        DynArrayBranch::Object { fields } => array_fields_wf(fields@, fields.len() as nat),
        DynArrayBranch::Enum { discriminants, variants } => array_wf(*discriminants)
            && array_fields_wf(variants@, variants.len() as nat),
    }
}

/// The first `i` named columns are well formed.
pub open spec fn array_fields_wf(s: Seq<(Vec<u8>, DynArrayBranch)>, i: nat) -> bool
    decreases s, i,
{
    if i == 0 || i > s.len() {
        true
    } else {
        array_fields_wf(s, (i - 1) as nat) && array_wf(s[i - 1].1)
    }
}


/// `b` nests at most `d` levels, each packed column holds exactly the bytes
/// its count needs, and each count, name and list in it is no longer than
/// memory allows.
pub open spec fn array_within(b: DynArrayBranch, d: nat) -> bool
    decreases b, 0nat,
{
    d > 0 && match b {
        DynArrayBranch::Boolean { count, bytes } => bytes@.len() == packed_len(count as nat),
        DynArrayBranch::Integer(vs) => vs.len() <= usize::MAX,
        DynArrayBranch::Object { fields } => fields.len() <= usize::MAX && array_fields_within(
            fields@,
            fields.len() as nat,
            (d - 1) as nat,
        ),
        DynArrayBranch::Enum { discriminants, variants } => variants.len() <= usize::MAX
            && array_within(*discriminants, (d - 1) as nat) && array_fields_within(
            variants@,
            variants.len() as nat,
            (d - 1) as nat,
        ),
    }
}

/// Each of the first `i` named columns has a name no longer than memory allows and nests at most `d` levels.
pub open spec fn array_fields_within(s: Seq<(Vec<u8>, DynArrayBranch)>, i: nat, d: nat) -> bool
    decreases s, i,
{
    if i == 0 || i > s.len() {
        true
    } else {
        array_fields_within(s, (i - 1) as nat, d) && s[i - 1].0@.len() <= usize::MAX && array_within(
            s[i - 1].1,
            d,
        )
    }
}

/// Runs of the same number of varints are prefix-free.
pub proof fn lemma_varints_prefix_free(s: Seq<u64>, u: Seq<u64>, t1: Seq<u8>, t2: Seq<u8>)
    requires
        s.len() == u.len(),
        varints_bytes(s) + t1 == varints_bytes(u) + t2,
    ensures
        s == u,
    decreases s.len(),
{
    if s.len() > 0 {
        let x = varint_bytes(s.last());
        let y = varint_bytes(u.last());
        assert(varints_bytes(s) + t1 =~= varints_bytes(s.drop_last()) + (x + t1));
        assert(varints_bytes(u) + t2 =~= varints_bytes(u.drop_last()) + (y + t2));
        lemma_varints_prefix_free(s.drop_last(), u.drop_last(), x + t1, y + t2);
        let all = varints_bytes(s) + t1;
        let k = varints_bytes(s.drop_last()).len() as int;
        assert(all.subrange(k, all.len() as int) =~= x + t1);
        assert(all.subrange(k, all.len() as int) =~= y + t2);
        lemma_varint_prefix_free(s.last(), u.last(), t1, t2);
        assert(s =~= s.drop_last().push(s.last()));
        assert(u =~= u.drop_last().push(u.last()));
    }
}

/// Encodings of columns are prefix-free: where one column's bytes and
/// another's agree up to either's end, the two encodings are the same.
pub proof fn lemma_array_prefix_free(
    a: DynArrayBranch,
    b: DynArrayBranch,
    t1: Seq<u8>,
    t2: Seq<u8>,
    da: nat,
    db: nat,
)
    requires
        array_within(a, da),
        array_within(b, db),
        array_bytes(a) + t1 == array_bytes(b) + t2,
    ensures
        array_bytes(a) == array_bytes(b),
    decreases a, 2nat,
{
    let all = array_bytes(a) + t1;
    assert(all[0] == array_bytes(a)[0]);
    assert(all[0] == array_bytes(b)[0]);
    let rest = all.subrange(1, all.len() as int);
    match a {
        DynArrayBranch::Boolean { count: ca, bytes: pa } => {
            if let DynArrayBranch::Boolean { count: cb, bytes: pb } = b {
                assert(rest =~= varint_bytes(ca as u64) + (pa@ + t1));
                assert(rest =~= varint_bytes(cb as u64) + (pb@ + t2));
                lemma_varint_prefix_free(ca as u64, cb as u64, pa@ + t1, pb@ + t2);
                let k = varint_bytes(ca as u64).len() as int;
                assert(pa@ =~= rest.subrange(k, k + pa@.len()));
                assert(pb@ =~= rest.subrange(k, k + pb@.len()));
            }
        },
        DynArrayBranch::Integer(va) => {
            if let DynArrayBranch::Integer(vb) = b {
                assert(rest =~= varint_bytes(va.len() as u64) + (varints_bytes(va@) + t1));
                assert(rest =~= varint_bytes(vb.len() as u64) + (varints_bytes(vb@) + t2));
                lemma_varint_prefix_free(va.len() as u64, vb.len() as u64, varints_bytes(va@) + t1, varints_bytes(vb@) + t2);
                let k = varint_bytes(va.len() as u64).len() as int;
                assert(rest.subrange(k, rest.len() as int) =~= varints_bytes(va@) + t1);
                assert(rest.subrange(k, rest.len() as int) =~= varints_bytes(vb@) + t2);
                lemma_varints_prefix_free(va@, vb@, t1, t2);
            }
        },
        DynArrayBranch::Enum { .. } => {
            if b is Enum {
                lemma_array_enum_prefix_free(a, b, t1, t2, da, db);
            }
        },
        DynArrayBranch::Object { .. } => {
            if b is Object {
                lemma_array_object_prefix_free(a, b, t1, t2, da, db);
            }
        },
    }
}

proof fn lemma_array_enum_prefix_free(a: DynArrayBranch, b: DynArrayBranch, t1: Seq<u8>, t2: Seq<u8>, da: nat, db: nat)
    requires
        a is Enum,
        b is Enum,
        array_within(a, da),
        array_within(b, db),
        array_bytes(a) + t1 == array_bytes(b) + t2,
    ensures
        array_bytes(a) == array_bytes(b),
    decreases a, 1nat,
{
    if let DynArrayBranch::Enum { discriminants: ia, variants: fa } = a {
        if let DynArrayBranch::Enum { discriminants: ib, variants: fb } = b {
            let all = array_bytes(a) + t1;
            let rest = all.subrange(1, all.len() as int);
            let na = fa.len() as nat;
            let nb = fb.len() as nat;
            let xa = array_bytes(*ia) + (array_fields_bytes(fa@, na) + t1);
            let xb = array_bytes(*ib) + (array_fields_bytes(fb@, nb) + t2);
            assert(rest =~= varint_bytes(na as u64) + xa);
            assert(rest =~= varint_bytes(nb as u64) + xb);
            lemma_varint_prefix_free(na as u64, nb as u64, xa, xb);
            let k = varint_bytes(na as u64).len() as int;
            assert(xa =~= rest.subrange(k, rest.len() as int));
            assert(xb =~= rest.subrange(k, rest.len() as int));
            lemma_array_prefix_free(*ia, *ib, array_fields_bytes(fa@, na) + t1, array_fields_bytes(fb@, nb) + t2, (da - 1) as nat, (db - 1) as nat);
            let m = array_bytes(*ia).len() as int;
            assert(xa.subrange(m, xa.len() as int) =~= array_fields_bytes(fa@, na) + t1);
            assert(xb.subrange(m, xb.len() as int) =~= array_fields_bytes(fb@, nb) + t2);
            lemma_array_fields_prefix_free(fa@, fb@, na, t1, t2, (da - 1) as nat, (db - 1) as nat);
        }
    }
}

proof fn lemma_array_object_prefix_free(a: DynArrayBranch, b: DynArrayBranch, t1: Seq<u8>, t2: Seq<u8>, da: nat, db: nat)
    requires
        a is Object,
        b is Object,
        array_within(a, da),
        array_within(b, db),
        array_bytes(a) + t1 == array_bytes(b) + t2,
    ensures
        array_bytes(a) == array_bytes(b),
    decreases a, 1nat,
{
    if let DynArrayBranch::Object { fields: fa } = a {
        if let DynArrayBranch::Object { fields: fb } = b {
            let all = array_bytes(a) + t1;
            let rest = all.subrange(1, all.len() as int);
            let na = fa.len() as nat;
            let nb = fb.len() as nat;
            let xa = array_fields_bytes(fa@, na) + t1;
            let xb = array_fields_bytes(fb@, nb) + t2;
            assert(rest =~= arity_bytes(na) + xa);
            assert(rest =~= arity_bytes(nb) + xb);
            assert(all[0] == object_tag(na) && all[0] == object_tag(nb));
            if na > 8 {
                lemma_varint_prefix_free((na - 9) as u64, (nb - 9) as u64, xa, xb);
            }
            assert(na == nb);
            assert(xa =~= rest.subrange(arity_bytes(na).len() as int, rest.len() as int));
            assert(xb =~= rest.subrange(arity_bytes(na).len() as int, rest.len() as int));
            lemma_array_fields_prefix_free(fa@, fb@, na, t1, t2, (da - 1) as nat, (db - 1) as nat);
        }
    }
}

/// Lists of the same number of named columns are prefix-free too.
pub proof fn lemma_array_fields_prefix_free(
    s: Seq<(Vec<u8>, DynArrayBranch)>,
    u: Seq<(Vec<u8>, DynArrayBranch)>,
    i: nat,
    t1: Seq<u8>,
    t2: Seq<u8>,
    ds: nat,
    du: nat,
)
    requires
        i <= s.len(),
        i <= u.len(),
        array_fields_within(s, i, ds),
        array_fields_within(u, i, du),
        array_fields_bytes(s, i) + t1 == array_fields_bytes(u, i) + t2,
    ensures
        array_fields_bytes(s, i) == array_fields_bytes(u, i),
    decreases s, i,
{
    if i > 0 {
        let j = (i - 1) as nat;
        let x = name_bytes(s[j as int].0@) + array_bytes(s[j as int].1);
        let y = name_bytes(u[j as int].0@) + array_bytes(u[j as int].1);
        assert(array_fields_bytes(s, i) + t1 =~= array_fields_bytes(s, j) + (x + t1));
        assert(array_fields_bytes(u, i) + t2 =~= array_fields_bytes(u, j) + (y + t2));
        lemma_array_fields_prefix_free(s, u, j, x + t1, y + t2, ds, du);
        let all = array_fields_bytes(s, i) + t1;
        let k = array_fields_bytes(s, j).len();
        assert(all.subrange(k as int, all.len() as int) =~= x + t1);
        assert(all.subrange(k as int, all.len() as int) =~= y + t2);
        let ra = array_bytes(s[j as int].1);
        let rb = array_bytes(u[j as int].1);
        assert(x + t1 =~= name_bytes(s[j as int].0@) + (ra + t1));
        assert(y + t2 =~= name_bytes(u[j as int].0@) + (rb + t2));
        lemma_name_prefix_free(s[j as int].0@, u[j as int].0@, ra + t1, rb + t2);
        let m = name_bytes(s[j as int].0@).len();
        assert((x + t1).subrange(m as int, (x + t1).len() as int) =~= ra + t1);
        assert((y + t2).subrange(m as int, (y + t2).len() as int) =~= rb + t2);
        lemma_array_prefix_free(s[j as int].1, u[j as int].1, t1, t2, ds, du);
    }
}

} // verus!
