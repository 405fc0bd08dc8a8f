//! Booleans packed eight to a byte. Element `i` of a sequence goes to bit
//! `i % 8` of byte `i / 8`, counting bits from the least significant one;
//! the bits after the last element are zero.
use vstd::prelude::*;

verus! {

/// Whether bit `t` (from the least significant) of `b` is set.
pub open spec fn bit_of(b: u8, t: int) -> bool {
    ((b >> (t as u8)) & 1u8) == 1u8
}

/// The number of bytes that `n` packed booleans take.
pub open spec fn packed_len(n: nat) -> nat {
    (n + 7) / 8
}

/// `bytes` hold exactly the booleans of `s`, in order, with zero padding.
pub open spec fn packs(bytes: Seq<u8>, s: Seq<bool>) -> bool {
    &&& bytes.len() == packed_len(s.len())
    &&& forall|i: int|
        0 <= i < 8 * bytes.len() ==> #[trigger] bit_of(bytes[i / 8], i % 8) == (i < s.len() && s[i])
}

/// The first `n` booleans that `bytes` hold.
pub open spec fn unpack(bytes: Seq<u8>, n: nat) -> Seq<bool> {
    Seq::new(n, |i: int| bit_of(bytes[i / 8], i % 8))
}

proof fn lemma_set_bit(x: u8, i: u8, u: u8)
    requires
        i < 8,
        u < 8,
    ensures
        u == i ==> ((x | (1u8 << i)) >> u) & 1u8 == 1u8,
        u != i ==> ((x | (1u8 << i)) >> u) & 1u8 == (x >> u) & 1u8,
{
    assert(u == i ==> ((x | (1u8 << i)) >> u) & 1u8 == 1u8) by (bit_vector)
        requires i < 8 && u < 8;
    assert(u != i ==> ((x | (1u8 << i)) >> u) & 1u8 == (x >> u) & 1u8) by (bit_vector)
        requires i < 8 && u < 8;
}

proof fn lemma_zero_bits(u: u8)
    requires
        u < 8,
    ensures
        (0u8 >> u) & 1u8 == 0u8,
{
    assert((0u8 >> u) & 1u8 == 0u8) by (bit_vector);
}

proof fn lemma_split(j: int, t: int)
    requires
        0 <= j,
        0 <= t < 8,
    ensures
        (8 * j + t) / 8 == j,
        (8 * j + t) % 8 == t,
{
    assert((8 * j + t) / 8 == j) by (nonlinear_arith)
        requires 0 <= j && 0 <= t < 8;
    assert((8 * j + t) % 8 == t) by (nonlinear_arith)
        requires 0 <= j && 0 <= t < 8;
}

/// Packs `s` onto the end of `out`.
pub fn encode_packed_bool(s: &[bool], out: &mut Vec<u8>)
    requires
        old(out)@.len() + s@.len() <= usize::MAX,
    ensures
        final(out)@.len() == old(out)@.len() + packed_len(s@.len()),
        final(out)@.subrange(0, old(out)@.len() as int) == old(out)@,
        packs(final(out)@.subrange(old(out)@.len() as int, final(out)@.len() as int), s@),
{
    let n = s.len();
    let nbytes = n / 8 + if n % 8 == 0 { 0 } else { 1 };
    assert(nbytes == packed_len(n as nat));
    let ghost start = out@.len();
    let mut j: usize = 0;
    while j < nbytes
        invariant
            nbytes == packed_len(n as nat),
            n == s@.len(),
            start + n <= usize::MAX,
            j <= nbytes,
            out@.len() == start + j,
            out@.subrange(0, start as int) == old(out)@,
            start == old(out)@.len(),
            forall|i: int|
                0 <= i < 8 * j ==> #[trigger] bit_of(out@[start + i / 8], i % 8) == (i < n
                    && s@[i]),
        decreases nbytes - j,
    {
        let mut byte: u8 = 0;
        let mut t: u8 = 0;
        assert forall|u: int| 0 <= u < 8 implies !#[trigger] bit_of(byte, u) by {
            lemma_zero_bits(u as u8);
        }
        while t < 8
            invariant
                t <= 8,
                j < nbytes,
                nbytes == packed_len(n as nat),
                n == s@.len(),
                forall|u: int| 0 <= u < t ==> #[trigger] bit_of(byte, u) == (8 * j + u < n && s@[8 * j + u]),
                forall|u: int| t <= u < 8 ==> !#[trigger] bit_of(byte, u),
            decreases 8 - t,
        {
            assert(8 * j + (t as int) < 8 * nbytes);
            let idx: usize = 8 * j + t as usize;
            let old_byte = byte;
            let set = idx < n && s[idx];
            assert(set == (8 * j + t < n && s@[8 * j + t]));
            if set {
                byte = byte | (1u8 << t);
            }
            assert forall|u: int| 0 <= u <= t implies #[trigger] bit_of(byte, u) == (8 * j + u < n
                && s@[8 * j + u]) by {
                lemma_set_bit(old_byte, t, u as u8);
                if u < t {
                    assert(bit_of(old_byte, u) == (8 * j + u < n && s@[8 * j + u]));
                } else {
                    assert(!bit_of(old_byte, u));
                }
            }
            assert forall|u: int| t < u < 8 implies !#[trigger] bit_of(byte, u) by {
                lemma_set_bit(old_byte, t, u as u8);
                assert(!bit_of(old_byte, u));
            }
            t = t + 1;
        }
        let ghost before = out@;
        out.push(byte);
        assert forall|i: int| 0 <= i < 8 * (j + 1) implies #[trigger] bit_of(out@[start + i / 8], i % 8)
            == (i < n && s@[i]) by {
            if i < 8 * j {
                assert(out@[start + i / 8] == before[start + i / 8]);
            } else {
                lemma_split(j as int, i - 8 * j);
                assert(i == 8 * j + (i - 8 * j));
                assert(bit_of(byte, i - 8 * j) == (8 * j + (i - 8 * j) < n && s@[8 * j + (i - 8 * j)]));
            }
        }
        assert(out@.subrange(0, start as int) =~= old(out)@);
        j = j + 1;
    }
    let ghost tail = out@.subrange(start as int, out@.len() as int);
    assert forall|i: int| 0 <= i < 8 * tail.len() implies #[trigger] bit_of(tail[i / 8], i % 8) == (i < s@.len() && s@[i]) by {
        assert(tail[i / 8] == out@[start + i / 8]);
    }
}

/// Reads the first `n` booleans out of `bytes`.
pub fn decode_packed_bool(bytes: &[u8], n: usize) -> (r: Vec<bool>)
    requires
        n <= 8 * bytes@.len(),
    ensures
        r@ == unpack(bytes@, n as nat),
{
    let mut r: Vec<bool> = Vec::new();
    let mut i: usize = 0;
    while i < n
        invariant
            i <= n,
            n <= 8 * bytes@.len(),
            r@ == unpack(bytes@, i as nat),
        decreases n - i,
    {
        let b = bytes[i / 8];
        let t: u8 = (i % 8) as u8;
        let bit = (b >> t) & 1u8 == 1u8;
        r.push(bit);
        assert(r@ =~= unpack(bytes@, (i + 1) as nat));
        i = i + 1;
    }
    r
}

/// Unpacking the bytes that pack `s`, with the length of `s`, gives back `s`.
pub proof fn lemma_packed_bool_round_trip(bytes: Seq<u8>, s: Seq<bool>)
    requires
        packs(bytes, s),
    ensures
        unpack(bytes, s.len()) == s,
{
    assert forall|i: int| 0 <= i < s.len() implies unpack(bytes, s.len())[i] == s[i] by {
        assert(bit_of(bytes[i / 8], i % 8) == (i < s.len() && s[i]));
    }
    assert(unpack(bytes, s.len()) =~= s);
}

} // verus!
