//! FNV-1a: a hash that every language and every release computes alike.
use vstd::prelude::*;
use vstd::utf8::encode_utf8;

verus! {

/// Where hashing starts.
pub const FNV_OFFSET: u64 = 0xcbf2_9ce4_8422_2325;

/// What every byte multiplies the hash with.
pub const FNV_PRIME: u64 = 0x100_0000_01b3;

/// A hash after one more byte.
pub open spec fn fnv_step(h: u64, b: u8) -> u64 {
    ((((h ^ (b as u64)) as int) * (FNV_PRIME as int)) % 0x1_0000_0000_0000_0000) as u64
}

/// A hash after more bytes.
pub open spec fn fnv(h: u64, bytes: Seq<u8>) -> u64
    decreases bytes.len(),
{
    if bytes.len() == 0 {
        h
    } else {
        fnv_step(fnv(h, bytes.drop_last()), bytes.last())
    }
}

/// Hashes more bytes.
pub fn fnv_more(h: u64, bytes: &[u8]) -> (r: u64)
    ensures
        r == fnv(h, bytes@),
{
    let mut out: u64 = h;
    for i in 0..bytes.len()
        invariant
            out == fnv(h, bytes@.take(i as int)),
    {
        proof {
            assert(bytes@.take(i + 1).drop_last() =~= bytes@.take(i as int));
        }
        let x: u64 = out ^ (bytes[i] as u64);
        out = x.wrapping_mul(FNV_PRIME);
    }
    assert(bytes@.take(bytes@.len() as int) =~= bytes@);
    out
}

/// The hash of a key under a seed.
pub open spec fn seeded(key: Seq<char>, seed: u64) -> u64 {
    fnv(FNV_OFFSET ^ seed, encode_utf8(key))
}

/// The hash of an identity under a seed: the same in every release, so that samples drawn by it stay
/// the same.
pub fn fnv1a(key: &str, seed: u64) -> (r: u64)
    ensures
        r == seeded(key@, seed),
{
    fnv_more(FNV_OFFSET ^ seed, key.as_bytes())
}

/// Hashing one part after the other is hashing them together.
pub proof fn parts_hash_as_one(h: u64, a: Seq<u8>, b: Seq<u8>)
    ensures
        fnv(fnv(h, a), b) == fnv(h, a + b),
    decreases b.len(),
{
    if b.len() == 0 {
        assert(a + b =~= a);
    } else {
        parts_hash_as_one(h, a, b.drop_last());
        assert((a + b).drop_last() =~= a + b.drop_last());
    }
}

/// The inverse of the prime: their product is one more than a multiple of 2^64.
pub const FNV_INVERSE: u64 = 0xce96_5057_aff6_957b;

proof fn lemma_product_tells(a: u64, b: u64)
    requires
        (a as int) * (FNV_PRIME as int) % 0x1_0000_0000_0000_0000 == (b as int) * (FNV_PRIME as int)
            % 0x1_0000_0000_0000_0000,
    ensures
        a == b,
{
    let m: int = 0x1_0000_0000_0000_0000;
    let p: int = FNV_PRIME as int;
    let inv: int = FNV_INVERSE as int;
    let k: int = 887285111055;
    let d: int = a - b;
    let q: int = (a as int) * p / m - (b as int) * p / m;
    assert(p * inv == 1 + k * m);
    vstd::arithmetic::div_mod::lemma_fundamental_div_mod((a as int) * p, m);
    vstd::arithmetic::div_mod::lemma_fundamental_div_mod((b as int) * p, m);
    assert(d * p == q * m) by (nonlinear_arith)
        requires
            d == a - b,
            q == (a as int) * p / m - (b as int) * p / m,
            (a as int) * p == m * ((a as int) * p / m) + (a as int) * p % m,
            (b as int) * p == m * ((b as int) * p / m) + (b as int) * p % m,
            (a as int) * p % m == (b as int) * p % m,
    ;
    let t: int = q * inv - d * k;
    assert(d == t * m) by (nonlinear_arith)
        requires
            d * p == q * m,
            p * inv == 1 + k * m,
            t == q * inv - d * k,
    {
        assert(d * (p * inv) == (d * p) * inv);
        assert(d * (1 + k * m) == d + d * k * m);
        assert((q * m) * inv == (q * inv) * m);
        assert((q * inv - d * k) * m == (q * inv) * m - d * k * m);
    }
    assert(t == 0) by (nonlinear_arith)
        requires
            d == t * m,
            -m < d < m,
            m > 0,
    ;
}

/// Two hashes that one more byte makes equal were equal.
pub proof fn a_byte_tells_hashes_apart(a: u64, b: u64, byte: u8)
    requires
        fnv_step(a, byte) == fnv_step(b, byte),
    ensures
        a == b,
{
    let c = byte as u64;
    lemma_product_tells(a ^ c, b ^ c);
    assert(a == b) by (bit_vector)
        requires
            a ^ c == b ^ c,
    ;
}

/// Hashing the same bytes keeps different starts apart.
pub proof fn bytes_tell_starts_apart(a: u64, b: u64, bytes: Seq<u8>)
    requires
        fnv(a, bytes) == fnv(b, bytes),
    ensures
        a == b,
    decreases bytes.len(),
{
    if bytes.len() > 0 {
        let init = bytes.drop_last();
        a_byte_tells_hashes_apart(fnv(a, init), fnv(b, init), bytes.last());
        bytes_tell_starts_apart(a, b, init);
    }
}

/// A key has different hashes under different seeds.
pub proof fn seeds_tell_hashes_apart(key: Seq<char>, a: u64, b: u64)
    ensures
        seeded(key, a) == seeded(key, b) <==> a == b,
{
    if seeded(key, a) == seeded(key, b) {
        bytes_tell_starts_apart(FNV_OFFSET ^ a, FNV_OFFSET ^ b, encode_utf8(key));
        let c = FNV_OFFSET;
        assert(a == b) by (bit_vector)
            requires
                c ^ a == c ^ b,
        ;
    }
}

/// The empty key hashes to where hashing starts, and a character of ASCII adds one step.
pub proof fn hashes_grow_by_characters(key: Seq<char>, c: char, seed: u64)
    requires
        c as u32 <= 0x7f,
    ensures
        seeded(Seq::empty(), seed) == FNV_OFFSET ^ seed,
        seeded(key.push(c), seed) == fnv_step(seeded(key, seed), c as u8),
{
    lemma_encoding_grows(key, c);
    let one = seq![c];
    assert(vstd::utf8::is_ascii_chars(one));
    vstd::utf8::is_ascii_chars_encode_utf8(one);
    assert(encode_utf8(one) =~= seq![c as u8]);
    assert(encode_utf8(key.push(c)).drop_last() =~= encode_utf8(key));
}

proof fn lemma_encoding_grows(key: Seq<char>, c: char)
    ensures
        encode_utf8(key.push(c)) == encode_utf8(key) + encode_utf8(seq![c]),
    decreases key.len(),
{
    if key.len() == 0 {
        assert(key.push(c) =~= seq![c]);
        assert(encode_utf8(key) + encode_utf8(seq![c]) =~= encode_utf8(seq![c]));
    } else {
        lemma_encoding_grows(key.drop_first(), c);
        assert(key.push(c).drop_first() =~= key.drop_first().push(c));
        assert(encode_utf8(key.push(c)) =~= encode_utf8(key) + encode_utf8(seq![c]));
    }
}

} // verus!
