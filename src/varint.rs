//! Prefix variable-length integers. The count `k` of leading set bits of the
//! first byte is the number of bytes that follow it (at most eight). The rest
//! of the first byte holds the high part of the value; the `k` bytes after it
//! hold the low part, least significant byte first.
use vstd::prelude::*;
use vstd::arithmetic::div_mod::{
    lemma_div_denominator,
    lemma_fundamental_div_mod,
    lemma_mod_breakdown,
    lemma_multiply_divide_lt,
};

verus! {

/// `256` to the power `k`.
pub open spec fn p256(k: nat) -> nat
    decreases k,
{
    if k == 0 {
        1
    } else {
        p256((k - 1) as nat) * 256
    }
}

/// The value of the first byte's header when `k` bytes follow: `k` set bits, then a clear one.
pub open spec fn header(k: nat) -> nat {
    if k == 0 {
        0
    } else if k == 1 {
        0x80
    } else if k == 2 {
        0xC0
    } else if k == 3 {
        0xE0
    } else if k == 4 {
        0xF0
    } else if k == 5 {
        0xF8
    } else if k == 6 {
        0xFC
    } else if k == 7 {
        0xFE
    } else {
        0xFF
    }
}

/// One more than the largest high part that the first byte can hold when `k` bytes follow.
pub open spec fn high_bound(k: nat) -> nat {
    if k == 0 {
        0x80
    } else if k == 1 {
        0x40
    } else if k == 2 {
        0x20
    } else if k == 3 {
        0x10
    } else if k == 4 {
        0x08
    } else if k == 5 {
        0x04
    } else if k == 6 {
        0x02
    } else {
        0x01
    }
}

/// The number of bytes that follow a first byte `b`: its count of leading set bits.
pub open spec fn following(b: u8) -> nat {
    if b < 0x80 {
        0
    } else if b < 0xC0 {
        1
    } else if b < 0xE0 {
        2
    } else if b < 0xF0 {
        3
    } else if b < 0xF8 {
        4
    } else if b < 0xFC {
        5
    } else if b < 0xFE {
        6
    } else if b < 0xFF {
        7
    } else {
        8
    }
}

/// Whether `n` can be written with `k` bytes after the first.
pub open spec fn fits(n: nat, k: nat) -> bool {
    k <= 8 && n < high_bound(k) * p256(k)
}

/// The fewest bytes after the first with which `n` can be written.
pub open spec fn min_following(n: nat) -> nat {
    if n < 0x80 {
        0
    } else if n < 0x4000 {
        1
    } else if n < 0x20_0000 {
        2
    } else if n < 0x1000_0000 {
        3
    } else if n < 0x8_0000_0000 {
        4
    } else if n < 0x400_0000_0000 {
        5
    } else if n < 0x2_0000_0000_0000 {
        6
    } else if n < 0x100_0000_0000_0000 {
        7
    } else {
        8
    }
}

/// The value of bytes read least significant first.
pub open spec fn le_value(s: Seq<u8>) -> nat
    decreases s.len(),
{
    if s.len() == 0 {
        0
    } else {
        s[0] as nat + 256 * le_value(s.drop_first())
    }
}

/// The low `k` bytes of `n`, least significant first.
pub open spec fn low_bytes(n: nat, k: nat) -> Seq<u8>
    decreases k,
{
    if k == 0 {
        Seq::empty()
    } else {
        low_bytes(n, (k - 1) as nat).push(((n / p256((k - 1) as nat)) % 256) as u8)
    }
}

/// The encoding of `n`: the shortest one the scheme allows.
pub open spec fn varint_bytes(n: u64) -> Seq<u8> {
    let k = min_following(n as nat);
    seq![(header(k) + n as nat / p256(k)) as u8] + low_bytes(n as nat, k)
}

/// What the start of `s` decodes to: the value and the number of bytes it takes,
/// or `None` where `s` is too short.
pub open spec fn varint_read(s: Seq<u8>) -> Option<(nat, nat)> {
    if s.len() == 0 {
        None
    } else {
        let k = following(s[0]);
        if s.len() < 1 + k {
            None
        } else {
            Some(
                (
                    (s[0] - header(k)) as nat * p256(k) + le_value(s.subrange(1, 1 + k as int)),
                    1 + k,
                ),
            )
        }
    }
}

proof fn lemma_p256_values()
    ensures
        p256(0) == 1,
        p256(1) == 0x100,
        p256(2) == 0x1_0000,
        p256(3) == 0x100_0000,
        p256(4) == 0x1_0000_0000,
        p256(5) == 0x100_0000_0000,
        p256(6) == 0x1_0000_0000_0000,
        p256(7) == 0x100_0000_0000_0000,
        p256(8) == 0x1_0000_0000_0000_0000,
{
    reveal_with_fuel(p256, 9);
}

proof fn lemma_le_push(s: Seq<u8>, x: u8)
    ensures
        le_value(s.push(x)) == le_value(s) + x as nat * p256(s.len()),
    decreases s.len(),
{
    if s.len() == 0 {
        assert(s.push(x).drop_first() =~= Seq::<u8>::empty());
        assert(le_value(Seq::<u8>::empty()) == 0);
        assert(le_value(s.push(x)) == x as nat + 256 * le_value(s.push(x).drop_first()));
        assert(p256(0) == 1);
        assert(le_value(s) == 0);
    } else {
        let t = s.drop_first();
        assert(s.push(x).drop_first() =~= t.push(x));
        lemma_le_push(t, x);
        let a = le_value(t);
        let q = p256(t.len());
        assert(p256(s.len()) == q * 256);
        assert(le_value(s.push(x)) == s[0] as nat + 256 * le_value(t.push(x)));
        assert(le_value(t.push(x)) == a + x as nat * q);
        assert(le_value(s) == s[0] as nat + 256 * a);
        assert(256 * (a + x as nat * q) == 256 * a + x as nat * (q * 256)) by (nonlinear_arith);
    }
}

proof fn lemma_p256_pos(k: nat)
    ensures
        p256(k) > 0,
    decreases k,
{
    if k > 0 {
        lemma_p256_pos((k - 1) as nat);
    }
}

proof fn lemma_low_bytes(n: nat, k: nat)
    ensures
        low_bytes(n, k).len() == k,
        le_value(low_bytes(n, k)) == n % p256(k),
    decreases k,
{
    lemma_p256_pos(k);
    if k == 0 {
        assert(n % 1 == 0);
    } else {
        let j = (k - 1) as nat;
        lemma_low_bytes(n, j);
        lemma_p256_pos(j);
        let x = ((n / p256(j)) % 256) as u8;
        lemma_le_push(low_bytes(n, j), x);
        lemma_mod_breakdown(n as int, p256(j) as int, 256);
        assert(p256(k) == p256(j) * 256);
        assert(x as nat == (n / p256(j)) % 256);
        assert(x as nat * p256(j) == p256(j) * ((n / p256(j)) % 256)) by (nonlinear_arith)
            requires x as nat == (n / p256(j)) % 256;
    }
}

proof fn lemma_header_following(k: nat, hi: nat)
    requires
        k <= 8,
        hi < high_bound(k),
    ensures
        header(k) + hi <= 0xFF,
        following((header(k) + hi) as u8) == k,
{
}

proof fn lemma_min_following(n: u64)
    ensures
        fits(n as nat, min_following(n as nat)),
        forall|k: nat| fits(n as nat, k) ==> min_following(n as nat) <= k,
{
    lemma_p256_values();
}

/// Decoding the encoding of `n`, whatever follows it, gives `n` back and takes
/// exactly the encoding's bytes; and no encoding of `n` is shorter.
pub proof fn lemma_varint_round_trip(n: u64, tail: Seq<u8>)
    ensures
        varint_read(varint_bytes(n) + tail) == Some((n as nat, varint_bytes(n).len())),
        varint_bytes(n).len() == 1 + min_following(n as nat),
        forall|k: nat| fits(n as nat, k) ==> varint_bytes(n).len() <= 1 + k,
{
    let k = min_following(n as nat);
    lemma_min_following(n);
    lemma_p256_values();
    lemma_p256_pos(k);
    lemma_low_bytes(n as nat, k);
    let hi = n as nat / p256(k);
    lemma_multiply_divide_lt(n as int, p256(k) as int, high_bound(k) as int);
    assert(high_bound(k) * p256(k) == p256(k) * high_bound(k)) by (nonlinear_arith);
    lemma_header_following(k, hi);
    let s = varint_bytes(n) + tail;
    assert(s[0] == (header(k) + hi) as u8);
    assert(s.subrange(1, 1 + k as int) =~= low_bytes(n as nat, k));
    lemma_fundamental_div_mod(n as int, p256(k) as int);
    assert(hi * p256(k) == p256(k) * hi) by (nonlinear_arith);
}

/// No encoding is the start of another's: equal bytes up to either's end mean equal values.
pub proof fn lemma_varint_prefix_free(x: u64, y: u64, t1: Seq<u8>, t2: Seq<u8>)
    requires
        varint_bytes(x) + t1 == varint_bytes(y) + t2,
    ensures
        x == y,
{
    lemma_varint_round_trip(x, t1);
    lemma_varint_round_trip(y, t2);
}

fn header_byte(k: usize) -> (r: u8)
    requires
        k <= 8,
    ensures
        r == header(k as nat),
{
    match k {
        0 => 0,
        1 => 0x80,
        2 => 0xC0,
        3 => 0xE0,
        4 => 0xF0,
        5 => 0xF8,
        6 => 0xFC,
        7 => 0xFE,
        _ => 0xFF,
    }
}

/// Appends the shortest encoding of `n` to `out`.
pub fn encode_prefix_varint(n: u64, out: &mut Vec<u8>)
    ensures
        final(out)@ == old(out)@ + varint_bytes(n),
        varint_bytes(n).len() == 1 + min_following(n as nat) <= 9,
{
    let k: usize = if n < 0x80 {
        0
    } else if n < 0x4000 {
        1
    } else if n < 0x20_0000 {
        2
    } else if n < 0x1000_0000 {
        3
    } else if n < 0x8_0000_0000 {
        4
    } else if n < 0x400_0000_0000 {
        5
    } else if n < 0x2_0000_0000_0000 {
        6
    } else if n < 0x100_0000_0000_0000 {
        7
    } else {
        8
    };
    assert(k == min_following(n as nat));
    let mut low: Vec<u8> = Vec::new();
    let mut m: u64 = n;
    proof {
        lemma_p256_values();
        assert(low@ =~= low_bytes(n as nat, 0));
    }
    let mut j: usize = 0;
    while j < k
        invariant
            j <= k,
            k <= 8,
            low@ == low_bytes(n as nat, j as nat),
            m as nat == n as nat / p256(j as nat),
        decreases k - j,
    {
        proof {
            lemma_p256_pos(j as nat);
            lemma_div_denominator(n as int, p256(j as nat) as int, 256);
            assert(p256((j + 1) as nat) == p256(j as nat) * 256);
        }
        low.push((m % 256) as u8);
        m = m / 256;
        j = j + 1;
    }
    proof {
        lemma_min_following(n);
        lemma_p256_values();
        lemma_p256_pos(k as nat);
        lemma_multiply_divide_lt(n as int, p256(k as nat) as int, high_bound(k as nat) as int);
        assert(high_bound(k as nat) * p256(k as nat) == p256(k as nat) * high_bound(k as nat))
            by (nonlinear_arith);
        lemma_header_following(k as nat, m as nat);
        lemma_low_bytes(n as nat, k as nat);
    }
    let first: u8 = header_byte(k) + m as u8;
    let ghost before = out@;
    out.push(first);
    out.append(&mut low);
    assert(out@ =~= before + varint_bytes(n));
}

fn following_count(b: u8) -> (r: usize)
    ensures
        r == following(b),
{
    if b < 0x80 {
        0
    } else if b < 0xC0 {
        1
    } else if b < 0xE0 {
        2
    } else if b < 0xF0 {
        3
    } else if b < 0xF8 {
        4
    } else if b < 0xFC {
        5
    } else if b < 0xFE {
        6
    } else if b < 0xFF {
        7
    } else {
        8
    }
}

/// Decodes the varint that starts at `pos`: its value and the position after it,
/// or `None` where the bytes end before it does.
pub fn decode_prefix_varint(bytes: &[u8], pos: usize) -> (r: Option<(u64, usize)>)
    ensures
        pos > bytes@.len() ==> r is None,
        pos <= bytes@.len() ==> (r is None <==> varint_read(
            bytes@.subrange(pos as int, bytes@.len() as int),
        ) is None),
        r matches Some((v, end)) ==> pos <= bytes@.len() && varint_read(
            bytes@.subrange(pos as int, bytes@.len() as int),
        ) == Some((v as nat, (end - pos) as nat)) && pos < end <= bytes@.len(),
{
    if pos >= bytes.len() {
        return None;
    }
    let ghost s = bytes@.subrange(pos as int, bytes@.len() as int);
    let b = bytes[pos];
    assert(s[0] == b);
    let k = following_count(b);
    if bytes.len() - pos < 1 + k {
        return None;
    }
    let hi: u64 = (b - header_byte(k)) as u64;
    proof {
        lemma_p256_values();
        lemma_high_bound(k as nat);
    }
    let mut v: u64 = hi;
    let mut i: usize = k;
    let ghost rest = s.subrange(1, 1 + k as int);
    assert(rest.subrange(k as int, k as int) =~= Seq::<u8>::empty());
    assert(rest =~= bytes@.subrange(pos + 1, pos + 1 + k));
    assert(le_value(Seq::<u8>::empty()) == 0);
    while i > 0
        invariant
            i <= k,
            k <= 8,
            k == following(b),
            pos + 1 + k <= bytes@.len(),
            bytes@.len() == bytes.len(),
            hi < high_bound(k as nat),
            high_bound(k as nat) * p256(k as nat) <= 0x1_0000_0000_0000_0000,
            rest == bytes@.subrange(pos + 1, pos + 1 + k),
            v as nat == hi * p256((k - i) as nat) + le_value(rest.subrange(i as int, k as int)),
            v < high_bound(k as nat) * p256((k - i) as nat),
        decreases i,
    {
        let x = bytes[pos + i];
        let ghost d = (k - i) as nat;
        proof {
            assert(p256(d + 1) == p256(d) * 256);
            assert(rest[i - 1] == x);
            let sub = rest.subrange(i - 1, k as int);
            assert(sub.drop_first() =~= rest.subrange(i as int, k as int));
            assert(sub[0] == x);
            lemma_p256_pos(d);
            assert(v * 256 + x < high_bound(k as nat) * p256(d + 1)) by (nonlinear_arith)
                requires
                    v < high_bound(k as nat) * p256(d),
                    x < 256,
                    p256(d + 1) == p256(d) * 256;
            assert(p256(d + 1) <= p256(k as nat)) by {
                lemma_p256_mono(d + 1, k as nat);
            }
            assert(high_bound(k as nat) * p256(d + 1) <= high_bound(k as nat) * p256(k as nat))
                by (nonlinear_arith)
                requires p256(d + 1) <= p256(k as nat);
            assert(hi * p256(d) * 256 == hi * p256(d + 1)) by (nonlinear_arith)
                requires p256(d + 1) == p256(d) * 256;
        }
        v = v * 256 + x as u64;
        i = i - 1;
    }
    assert(rest.subrange(0, k as int) =~= rest);
    assert(s.subrange(1, 1 + k as int) =~= rest);
    Some((v, pos + 1 + k))
}

proof fn lemma_high_bound(k: nat)
    requires
        k <= 8,
    ensures
        high_bound(k) * p256(k) <= 0x1_0000_0000_0000_0000,
{
    lemma_p256_values();
    if k == 0 {
    } else if k == 1 {
    } else if k == 2 {
    } else if k == 3 {
    } else if k == 4 {
    } else if k == 5 {
    } else if k == 6 {
    } else if k == 7 {
    } else {
    }
}

proof fn lemma_p256_mono(a: nat, b: nat)
    requires
        a <= b,
    ensures
        p256(a) <= p256(b),
    decreases b,
{
    if a < b {
        lemma_p256_mono(a, (b - 1) as nat);
        lemma_p256_pos((b - 1) as nat);
    }
}

} // verus!
