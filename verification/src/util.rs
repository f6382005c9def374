use vstd::prelude::*;

verus! {

/// Two to the power `n`.
pub open spec fn exp2(n: nat) -> nat
    decreases n,
{
    if n == 0 {
        1
    } else {
        2 * exp2((n - 1) as nat)
    }
}

/// Number of trailing zero bits; 32 for zero.
pub open spec fn spec_ctz(a: u32) -> nat
    decreases a,
{
    if a == 0 {
        32
    } else if a % 2 == 1 {
        0
    } else {
        1 + spec_ctz(a / 2)
    }
}

/// Number of one bits.
pub open spec fn spec_popc(a: u32) -> nat
    decreases a,
{
    if a == 0 {
        0
    } else {
        (a % 2) as nat + spec_popc(a / 2)
    }
}

/// The least `r` with `2^r >= a`, and 32 for zero (where `a - 1` wraps around).
pub open spec fn spec_npw2(a: u32) -> nat {
    if a == 0 {
        32
    } else {
        choose|r: nat| #[trigger] exp2(r) >= a && (r == 0 || exp2((r - 1) as nat) < a)
    }
}

pub proof fn lemma_exp2_pos(a: nat)
    ensures
        exp2(a) > 0,
    decreases a,
{
    if a > 0 {
        lemma_exp2_pos((a - 1) as nat);
    }
}

pub proof fn lemma_exp2_monotone(a: nat, b: nat)
    requires
        a <= b,
    ensures
        exp2(a) <= exp2(b),
        a < b ==> exp2(a) < exp2(b),
    decreases b,
{
    if a < b {
        lemma_exp2_monotone(a, (b - 1) as nat);
        lemma_exp2_pos((b - 1) as nat);
    }
}

pub proof fn lemma_exp2_32()
    ensures
        exp2(32) == 0x1_0000_0000,
{
    reveal_with_fuel(exp2, 33);
}

/// A least power of two at or above `a` exists for every `a` that a word holds.
proof fn lemma_npw2_witness(a: nat, r: nat)
    requires
        0 < a <= 0x1_0000_0000,
        r <= 32,
        r > 0 ==> exp2((r - 1) as nat) < a,
    ensures
        exists|q: nat| #[trigger] exp2(q) >= a && (q == 0 || exp2((q - 1) as nat) < a),
    decreases 32 - r,
{
    if exp2(r) >= a {
        assert(exp2(r) >= a && (r == 0 || exp2((r - 1) as nat) < a));
    } else {
        if r == 32 {
            lemma_exp2_32();
        }
        lemma_npw2_witness(a, r + 1);
    }
}

/// Going from `i - 1` to `i` sets one bit and clears as many as `i` has
/// trailing zeros.
pub proof fn lemma_popc_step(i: u32)
    requires
        i > 0,
    ensures
        spec_popc(i) + spec_ctz(i) == spec_popc((i - 1) as u32) + 1,
    decreases i,
{
    let j = (i - 1) as u32;
    if i % 2 == 1 {
        assert(j / 2 == i / 2);
        assert(j % 2 == 0);
    } else {
        lemma_popc_step(i / 2);
        assert(j / 2 == (i / 2 - 1) as u32);
        assert(j % 2 == 1);
    }
}

/// A number below `2^n` has at most `n` one bits.
pub proof fn lemma_popc_bound(x: u32, n: nat)
    requires
        x < exp2(n),
    ensures
        spec_popc(x) <= n,
    decreases x,
{
    if x > 0 {
        if n == 0 {
            assert(exp2(0) == 1);
        } else {
            assert(exp2(n) == 2 * exp2((n - 1) as nat));
            lemma_popc_bound(x / 2, (n - 1) as nat);
        }
    }
}

/// What `spec_npw2` gives on a positive word.
pub proof fn lemma_npw2(a: u32)
    requires
        a > 0,
    ensures
        exp2(spec_npw2(a)) >= a,
        spec_npw2(a) == 0 || exp2((spec_npw2(a) - 1) as nat) < a,
        spec_npw2(a) <= 32,
{
    lemma_npw2_witness(a as nat, 0);
    let r = spec_npw2(a);
    if r > 32 {
        lemma_exp2_monotone(32, (r - 1) as nat);
        lemma_exp2_32();
    }
}

/// The minimum of two sizes.
pub fn lfs_min(a: u32, b: u32) -> (r: u32)
    ensures
        r == if a < b { a } else { b },
{
    if a < b {
        a
    } else {
        b
    }
}

/// The maximum of two sizes.
pub fn lfs_max(a: u32, b: u32) -> (r: u32)
    ensures
        r == if a > b { a } else { b },
{
    if a > b {
        a
    } else {
        b
    }
}

/// Rounds `a` down to a multiple of `alignment`.
pub fn lfs_aligndown(a: u32, alignment: u32) -> (r: u32)
    requires
        alignment > 0,
    ensures
        r == a - a % alignment,
        r % alignment == 0,
        r <= a,
        a - r < alignment,
{
    proof {
        vstd::arithmetic::div_mod::lemma_fundamental_div_mod(a as int, alignment as int);
        vstd::arithmetic::div_mod::lemma_mod_multiples_basic((a / alignment) as int, alignment as int);
        vstd::arithmetic::mul::lemma_mul_is_commutative((a / alignment) as int, alignment as int);
    }
    a - a % alignment
}

/// Rounds `a` up to a multiple of `alignment`.
pub fn lfs_alignup(a: u32, alignment: u32) -> (r: u32)
    requires
        alignment > 0,
        a + alignment - 1 <= u32::MAX,
    ensures
        r == (a + alignment - 1) - (a + alignment - 1) % (alignment as int),
        r % alignment == 0,
        a <= r,
        r - a < alignment,
{
    lfs_aligndown(a + (alignment - 1), alignment)
}

/// The least power of two exponent `r` with `2^r >= a`.
pub fn lfs_npw2(a: u32) -> (r: u32)
    ensures
        r == spec_npw2(a),
        r <= 32,
        a > 0 ==> exp2(r as nat) >= a && (r == 0 || exp2((r - 1) as nat) < a),
{
    if a == 0 {
        return 32;
    }
    let mut r: u32 = 0;
    let mut p: u64 = 1;
    while p < a as u64
        invariant
            p == exp2(r as nat),
            r <= 32,
            r > 0 ==> exp2((r - 1) as nat) < a,
            a > 0,
        decreases 32 - r,
    {
        proof {
            lemma_exp2_monotone(r as nat, 32);
            lemma_exp2_32();
            if r == 32 {
                assert(false);
            }
        }
        p = p * 2;
        r = r + 1;
    }
    proof {
        let rr = r as nat;
        assert(exp2(rr) >= a && (rr == 0 || exp2((rr - 1) as nat) < a));
        let c = choose|q: nat| #[trigger] exp2(q) >= a && (q == 0 || exp2((q - 1) as nat) < a);
        if c < rr {
            lemma_exp2_monotone(c, (rr - 1) as nat);
        } else if c > rr {
            lemma_exp2_monotone(rr, (c - 1) as nat);
        }
    }
    r
}

/// Count of trailing zero bits, 32 for zero.
pub fn lfs_ctz(a: u32) -> (r: u32)
    ensures
        r == spec_ctz(a),
        r <= 32,
{
    if a == 0 {
        return 32;
    }
    let mut x = a;
    let mut r: u32 = 0;
    assert(exp2(0) == 1);
    while x % 2 == 0
        invariant
            x > 0,
            r + spec_ctz(x) == spec_ctz(a),
            r < 32,
            x <= a,
            exp2(r as nat) * x == a,
        decreases x,
    {
        proof {
            reveal_with_fuel(exp2, 2);
            assert(exp2((r + 1) as nat) == 2 * exp2(r as nat));
            lemma_exp2_monotone((r + 1) as nat, 32);
            lemma_exp2_32();
            assert(exp2((r + 1) as nat) * (x / 2) == a) by (nonlinear_arith)
                requires
                    exp2((r + 1) as nat) == 2 * exp2(r as nat),
                    exp2(r as nat) * x == a,
                    x % 2 == 0,
            ;
            if r + 1 >= 32 {
                assert(exp2((r + 1) as nat) * (x / 2) >= exp2(32)) by (nonlinear_arith)
                    requires
                        exp2((r + 1) as nat) >= exp2(32),
                        x / 2 >= 1,
                ;
            }
        }
        x = x / 2;
        r = r + 1;
    }
    r
}

/// Count of one bits.
pub fn lfs_popc(a: u32) -> (r: u32)
    ensures
        r == spec_popc(a),
        r <= 32,
{
    let mut x = a;
    let mut r: u32 = 0;
    let mut n: u32 = 0;
    proof {
        lemma_exp2_32();
    }
    while x > 0
        invariant
            r + spec_popc(x) == spec_popc(a),
            r <= n,
            n <= 32,
            x < exp2((32 - n) as nat),
        decreases x,
    {
        proof {
            reveal_with_fuel(exp2, 2);
            if n == 32 {
                assert(exp2(0) == 1);
            }
            assert(exp2((32 - n) as nat) == 2 * exp2((32 - n - 1) as nat));
        }
        r = r + x % 2;
        x = x / 2;
        n = n + 1;
    }
    proof {
        lemma_exp2_32();
    }
    r
}

/// One step of the bitwise CRC-32 (reflected polynomial 0xedb88320).
pub open spec fn crc_bit(c: u32) -> u32 {
    if c & 1 == 1 {
        (c >> 1) ^ 0xedb88320
    } else {
        c >> 1
    }
}

/// The CRC-32 state after taking in one byte.
pub open spec fn crc_byte(c: u32, b: u8) -> u32 {
    crc_bit(crc_bit(crc_bit(crc_bit(crc_bit(crc_bit(crc_bit(crc_bit(c ^ (b as u32)))))))))
}

/// The CRC-32 state after taking in a sequence of bytes, with no final xor.
pub open spec fn crc_seq(c: u32, s: Seq<u8>) -> u32
    decreases s.len(),
{
    if s.len() == 0 {
        c
    } else {
        crc_byte(crc_seq(c, s.drop_last()), s.last())
    }
}

/// Taking in two byte sequences one after the other is taking in their concatenation.
pub proof fn lemma_crc_concat(c: u32, a: Seq<u8>, b: Seq<u8>)
    ensures
        crc_seq(c, a + b) == crc_seq(crc_seq(c, a), b),
    decreases b.len(),
{
    if b.len() == 0 {
        assert(a + b =~= a);
    } else {
        lemma_crc_concat(c, a, b.drop_last());
        assert((a + b).drop_last() =~= a + b.drop_last());
        assert((a + b).last() == b.last());
    }
}

/// Taking in a byte that clears the low byte of the state only shifts it;
/// and the bytes of a word, taken low to high, are its low byte after
/// shifting by whole bytes.
proof fn lemma_crc_byte_clear(c: u32, b: u8)
    by (bit_vector)
    ensures
        (c & 0xff) as u8 == b ==> crc_byte(c, b) == c >> 8,
        (c >> 8) >> 8 == c >> 16,
        (c >> 16) >> 8 == c >> 24,
        ((c >> 24) & 0xff) as u8 == (c >> 24) as u8,
        (c >> 24) >> 8 == 0,
{
}

/// Taking in the four little-endian bytes of the state itself leaves zero:
/// a block followed by its checksum checks to zero.
pub proof fn lemma_crc_residue(c: u32)
    ensures
        crc_seq(c, le32_bytes(c)) == 0,
{
    let s = le32_bytes(c);
    let c1 = c >> 8;
    let c2 = c1 >> 8;
    let c3 = c2 >> 8;
    lemma_crc_byte_clear(c, s[0]);
    lemma_crc_byte_clear(c1, s[1]);
    lemma_crc_byte_clear(c2, s[2]);
    lemma_crc_byte_clear(c3, s[3]);
    assert(c2 == c >> 16);
    assert(c3 == c >> 24);
    assert(c3 >> 8 == 0);
    let s1 = s.drop_last();
    let s2 = s1.drop_last();
    let s3 = s2.drop_last();
    assert(s3.drop_last() =~= Seq::<u8>::empty());
    assert(crc_seq(c, s3.drop_last()) == c);
    assert(crc_seq(c, s3) == c1);
    assert(crc_seq(c, s2) == c2);
    assert(crc_seq(c, s1) == c3);
}

/// Updates a CRC-32 with the bytes of `buffer`.
pub fn lfs_crc(crc: u32, buffer: &[u8]) -> (r: u32)
    ensures
        r == crc_seq(crc, buffer@),
{
    let mut c = crc;
    let mut i: usize = 0;
    while i < buffer.len()
        invariant
            i <= buffer.len(),
            c == crc_seq(crc, buffer@.subrange(0, i as int)),
        decreases buffer.len() - i,
    {
        let mut x = c ^ (buffer[i] as u32);
        let mut j: u32 = 0;
        let ghost start = x;
        while j < 8
            invariant
                j <= 8,
                start == c ^ (buffer@[i as int] as u32),
                x == crc_bits(start, j as nat),
            decreases 8 - j,
        {
            if x & 1 == 1 {
                x = (x >> 1) ^ 0xedb88320;
            } else {
                x = x >> 1;
            }
            j = j + 1;
        }
        proof {
            reveal_with_fuel(crc_bits, 9);
            assert(buffer@.subrange(0, i + 1).drop_last() =~= buffer@.subrange(0, i as int));
        }
        c = x;
        i = i + 1;
    }
    proof {
        assert(buffer@.subrange(0, i as int) =~= buffer@);
    }
    c
}

/// `n` steps of the bitwise CRC-32.
pub open spec fn crc_bits(c: u32, n: nat) -> u32
    decreases n,
{
    if n == 0 {
        c
    } else {
        crc_bit(crc_bits(c, (n - 1) as nat))
    }
}

/// The four bytes of a 32-bit word in reverse order.
pub open spec fn swap32(x: u32) -> u32 {
    ((x & 0xff) << 24) | ((x & 0xff00) << 8) | ((x >> 8) & 0xff00) | (x >> 24)
}

/// Reversing the byte order twice gives the word back.
pub proof fn lemma_swap32_involutive(x: u32)
    ensures
        swap32(swap32(x)) == x,
{
    assert(swap32(swap32(x)) == x) by (bit_vector);
}

/// The native value of a word stored little-endian.
pub open spec fn spec_fromle32(x: u32) -> u32 {
    if vstd::endian::endianness() is Little {
        x
    } else {
        swap32(x)
    }
}

/// Converts a word stored little-endian to a native word.
/// Trusted: `u32::from_le` is the identity on a little-endian target and
/// reverses the four bytes on a big-endian one.
#[verifier::external_body]
pub(crate) fn lfs_fromle32(a: u32) -> (r: u32)
    ensures
        r == spec_fromle32(a),
{
    u32::from_le(a)
}

/// Converts a native word to its little-endian storage.
/// Trusted: `u32::to_le` is the identity on a little-endian target and
/// reverses the four bytes on a big-endian one.
#[verifier::external_body]
pub(crate) fn lfs_tole32(a: u32) -> (r: u32)
    ensures
        r == spec_fromle32(a),
{
    u32::to_le(a)
}

/// Converting to storage order and back gives the word back.
pub proof fn lemma_endian_roundtrip(x: u32)
    ensures
        spec_fromle32(spec_fromle32(x)) == x,
{
    lemma_swap32_involutive(x);
}

/// The little-endian word held in four bytes.
pub open spec fn le32_of(b: Seq<u8>) -> u32 {
    (b[0] as u32) | ((b[1] as u32) << 8) | ((b[2] as u32) << 16) | ((b[3] as u32) << 24)
}

/// The four little-endian bytes of a word.
pub open spec fn le32_bytes(x: u32) -> Seq<u8> {
    seq![(x & 0xff) as u8, ((x >> 8) & 0xff) as u8, ((x >> 16) & 0xff) as u8, (x >> 24) as u8]
}

/// Decodes the little-endian word at `off` in `buf`.
pub fn lfs_le32_decode(buf: &[u8], off: usize) -> (r: u32)
    requires
        off + 4 <= buf@.len(),
    ensures
        r == le32_of(buf@.subrange(off as int, off + 4)),
{
    (buf[off] as u32) | ((buf[off + 1] as u32) << 8) | ((buf[off + 2] as u32) << 16) | ((
    buf[off + 3] as u32) << 24)
}

/// Encodes a word as four little-endian bytes.
pub fn lfs_le32_encode(x: u32) -> (r: Vec<u8>)
    ensures
        r@ == le32_bytes(x),
        le32_of(r@) == x,
{
    let mut v: Vec<u8> = Vec::new();
    v.push((x & 0xff) as u8);
    v.push(((x >> 8) & 0xff) as u8);
    v.push(((x >> 16) & 0xff) as u8);
    v.push((x >> 24) as u8);
    proof {
        let b0 = (x & 0xff) as u8;
        let b1 = ((x >> 8) & 0xff) as u8;
        let b2 = ((x >> 16) & 0xff) as u8;
        let b3 = (x >> 24) as u8;
        assert(((b0 as u32) | ((b1 as u32) << 8) | ((b2 as u32) << 16) | ((b3 as u32) << 24)) == x)
            by (bit_vector)
            requires
                b0 == (x & 0xff) as u8,
                b1 == ((x >> 8) & 0xff) as u8,
                b2 == ((x >> 16) & 0xff) as u8,
                b3 == (x >> 24) as u8,
        ;
    }
    v
}

/// The word held by four big-endian bytes.
pub open spec fn be32_of(b: Seq<u8>) -> u32 {
    ((b[0] as u32) << 24) | ((b[1] as u32) << 16) | ((b[2] as u32) << 8) | (b[3] as u32)
}

/// The four big-endian bytes of a word.
pub open spec fn be32_bytes(x: u32) -> Seq<u8> {
    seq![(x >> 24) as u8, ((x >> 16) & 0xff) as u8, ((x >> 8) & 0xff) as u8, (x & 0xff) as u8]
}

/// Decodes the big-endian word at `off` in `buf`.
pub fn lfs_be32_decode(buf: &[u8], off: usize) -> (r: u32)
    requires
        off + 4 <= buf@.len(),
    ensures
        r == be32_of(buf@.subrange(off as int, off + 4)),
{
    ((buf[off] as u32) << 24) | ((buf[off + 1] as u32) << 16) | ((buf[off + 2] as u32) << 8) | (
    buf[off + 3] as u32)
}

/// Encodes a word as four big-endian bytes.
pub fn lfs_be32_encode(x: u32) -> (r: Vec<u8>)
    ensures
        r@ == be32_bytes(x),
        be32_of(r@) == x,
{
    let mut v: Vec<u8> = Vec::new();
    v.push((x >> 24) as u8);
    v.push(((x >> 16) & 0xff) as u8);
    v.push(((x >> 8) & 0xff) as u8);
    v.push((x & 0xff) as u8);
    proof {
        let b0 = (x >> 24) as u8;
        let b1 = ((x >> 16) & 0xff) as u8;
        let b2 = ((x >> 8) & 0xff) as u8;
        let b3 = (x & 0xff) as u8;
        assert(((b0 as u32) << 24) | ((b1 as u32) << 16) | ((b2 as u32) << 8) | (b3 as u32) == x)
            by (bit_vector)
            requires
                b0 == (x >> 24) as u8,
                b1 == ((x >> 16) & 0xff) as u8,
                b2 == ((x >> 8) & 0xff) as u8,
                b3 == (x & 0xff) as u8,
        ;
        assert(v@ =~= be32_bytes(x));
    }
    v
}

/// Four bytes decode to the word that encodes back to them.
pub proof fn lemma_be32_bytes_of(b: Seq<u8>)
    requires
        b.len() == 4,
    ensures
        be32_bytes(be32_of(b)) == b,
{
    let (b0, b1, b2, b3) = (b[0], b[1], b[2], b[3]);
    let x = be32_of(b);
    assert((x >> 24) as u8 == b0 && ((x >> 16) & 0xff) as u8 == b1 && ((x >> 8) & 0xff) as u8 == b2
        && (x & 0xff) as u8 == b3) by (bit_vector)
        requires
            x == ((b0 as u32) << 24) | ((b1 as u32) << 16) | ((b2 as u32) << 8) | (b3 as u32),
    ;
    assert(be32_bytes(x) =~= b);
}

/// The bytes of a word decode to the word.
pub proof fn lemma_be32_roundtrip(x: u32)
    ensures
        be32_of(be32_bytes(x)) == x,
{
    let b0 = (x >> 24) as u8;
    let b1 = ((x >> 16) & 0xff) as u8;
    let b2 = ((x >> 8) & 0xff) as u8;
    let b3 = (x & 0xff) as u8;
    assert(((b0 as u32) << 24) | ((b1 as u32) << 16) | ((b2 as u32) << 8) | (b3 as u32) == x)
        by (bit_vector)
        requires
            b0 == (x >> 24) as u8,
            b1 == ((x >> 16) & 0xff) as u8,
            b2 == ((x >> 8) & 0xff) as u8,
            b3 == (x & 0xff) as u8,
    ;
}

} // verus!
