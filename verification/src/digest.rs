//! Content hash: SHA-256, as FIPS 180-4 defines it.
//!
//! The spec functions below are the standard's definitions over sequences
//! of bytes and 32-bit words; `content_hash` computes what they say.

use crate::wire::{be32, from_be32, get_be32, put_be32, put_bytes};
use vstd::prelude::*;

verus! {

/// Length in bytes of a content hash.
pub const DIGEST_LEN: usize = 32;

/// Addition of 32-bit words modulo 2^32.
pub open spec fn add32(a: u32, b: u32) -> u32 {
    ((a + b) % 0x1_0000_0000) as u32
}

/// Rotation of a word to the right by `n` bits, `0 < n < 32`.
pub open spec fn rotr(x: u32, n: u32) -> u32 {
    (x >> n) | (x << ((32 - n) as u32))
}

/// The function Ch of the standard.
pub open spec fn ch(x: u32, y: u32, z: u32) -> u32 {
    (x & y) ^ (!x & z)
}

/// The function Maj of the standard.
pub open spec fn maj(x: u32, y: u32, z: u32) -> u32 {
    (x & y) ^ (x & z) ^ (y & z)
}

/// The function written as a capital sigma with index 0.
pub open spec fn big_sigma0(x: u32) -> u32 {
    rotr(x, 2) ^ rotr(x, 13) ^ rotr(x, 22)
}

/// The function written as a capital sigma with index 1.
pub open spec fn big_sigma1(x: u32) -> u32 {
    rotr(x, 6) ^ rotr(x, 11) ^ rotr(x, 25)
}

/// The function written as a small sigma with index 0.
pub open spec fn small_sigma0(x: u32) -> u32 {
    rotr(x, 7) ^ rotr(x, 18) ^ (x >> 3u32)
}

/// The function written as a small sigma with index 1.
pub open spec fn small_sigma1(x: u32) -> u32 {
    rotr(x, 17) ^ rotr(x, 19) ^ (x >> 10u32)
}

/// The sixty-four round constants.
pub open spec fn round_constants() -> Seq<u32> {
    seq![
        0x428a2f98u32, 0x71374491u32, 0xb5c0fbcfu32, 0xe9b5dba5u32,
        0x3956c25bu32, 0x59f111f1u32, 0x923f82a4u32, 0xab1c5ed5u32,
        0xd807aa98u32, 0x12835b01u32, 0x243185beu32, 0x550c7dc3u32,
        0x72be5d74u32, 0x80deb1feu32, 0x9bdc06a7u32, 0xc19bf174u32,
        0xe49b69c1u32, 0xefbe4786u32, 0x0fc19dc6u32, 0x240ca1ccu32,
        0x2de92c6fu32, 0x4a7484aau32, 0x5cb0a9dcu32, 0x76f988dau32,
        0x983e5152u32, 0xa831c66du32, 0xb00327c8u32, 0xbf597fc7u32,
        0xc6e00bf3u32, 0xd5a79147u32, 0x06ca6351u32, 0x14292967u32,
        0x27b70a85u32, 0x2e1b2138u32, 0x4d2c6dfcu32, 0x53380d13u32,
        0x650a7354u32, 0x766a0abbu32, 0x81c2c92eu32, 0x92722c85u32,
        0xa2bfe8a1u32, 0xa81a664bu32, 0xc24b8b70u32, 0xc76c51a3u32,
        0xd192e819u32, 0xd6990624u32, 0xf40e3585u32, 0x106aa070u32,
        0x19a4c116u32, 0x1e376c08u32, 0x2748774cu32, 0x34b0bcb5u32,
        0x391c0cb3u32, 0x4ed8aa4au32, 0x5b9cca4fu32, 0x682e6ff3u32,
        0x748f82eeu32, 0x78a5636fu32, 0x84c87814u32, 0x8cc70208u32,
        0x90befffau32, 0xa4506cebu32, 0xbef9a3f7u32, 0xc67178f2u32,
    ]
}

/// The initial hash value.
pub open spec fn initial_state() -> Seq<u32> {
    seq![
        0x6a09e667u32, 0xbb67ae85u32, 0x3c6ef372u32, 0xa54ff53au32,
        0x510e527fu32, 0x9b05688cu32, 0x1f83d9abu32, 0x5be0cd19u32,
    ]
}

/// The first `n` words of the message schedule of a block of sixteen words.
pub open spec fn schedule(block: Seq<u32>, n: nat) -> Seq<u32>
    decreases n,
{
    if n <= 16 {
        block.take(n as int)
    } else {
        let w = schedule(block, (n - 1) as nat);
        w.push(
            add32(
                add32(add32(small_sigma1(w[n - 3]), w[n - 8]), small_sigma0(w[n - 16])),
                w[n - 17],
            ),
        )
    }
}

/// One round: the eight working variables after a round with constant `k`
/// and schedule word `w`.
pub open spec fn round(s: Seq<u32>, k: u32, w: u32) -> Seq<u32> {
    let t1 = add32(add32(add32(add32(s[7], big_sigma1(s[4])), ch(s[4], s[5], s[6])), k), w);
    let t2 = add32(big_sigma0(s[0]), maj(s[0], s[1], s[2]));
    seq![add32(t1, t2), s[0], s[1], s[2], add32(s[3], t1), s[4], s[5], s[6]]
}

/// The working variables after the first `n` rounds over the schedule `w`.
pub open spec fn rounds(s: Seq<u32>, w: Seq<u32>, n: nat) -> Seq<u32>
    decreases n,
{
    if n == 0 {
        s
    } else {
        round(rounds(s, w, (n - 1) as nat), round_constants()[n - 1], w[n - 1])
    }
}

/// The hash value after one more block.
#[verifier::opaque]
pub open spec fn compress(h: Seq<u32>, block: Seq<u32>) -> Seq<u32> {
    let r = rounds(h, schedule(block, 64), 64);
    Seq::new(8, |i: int| add32(h[i], r[i]))
}

/// The sixteen big-endian words of a block of sixty-four bytes.
pub open spec fn block_words(bytes: Seq<u8>) -> Seq<u32> {
    Seq::new(16, |i: int| from_be32(bytes.subrange(4 * i, 4 * i + 4)))
}

/// The hash value after the first `n` blocks of `bytes`.
pub open spec fn hash_blocks(bytes: Seq<u8>, n: nat) -> Seq<u32>
    decreases n,
{
    if n == 0 {
        initial_state()
    } else {
        compress(
            hash_blocks(bytes, (n - 1) as nat),
            block_words(bytes.subrange(64 * (n - 1), 64 * (n as int))),
        )
    }
}

/// How many zero bytes the padding of a message of `len` bytes holds.
pub open spec fn zero_count(len: nat) -> nat {
    ((119 - len % 64) % 64) as nat
}

/// The eight bytes that end the padding: the length of the message in
/// bits, big-endian, modulo 2^64.
pub open spec fn length_field(len: nat) -> Seq<u8> {
    let bits = (8 * len) % 0x1_0000_0000_0000_0000;
    be32((bits / 0x1_0000_0000) as u32) + be32((bits % 0x1_0000_0000) as u32)
}

/// What follows the message in the padded message: a byte `0x80`, zero
/// bytes up to eight short of a whole block, and the length field.
pub open spec fn padding(len: nat) -> Seq<u8> {
    seq![0x80u8] + Seq::new(zero_count(len), |i: int| 0u8) + length_field(len)
}

/// The bytes of a hash value, each word big-endian.
pub open spec fn state_bytes(h: Seq<u32>) -> Seq<u8> {
    be32(h[0]) + be32(h[1]) + be32(h[2]) + be32(h[3]) + be32(h[4]) + be32(h[5]) + be32(h[6])
        + be32(h[7])
}

/// The SHA-256 digest of `data`.
///
/// The definition is there for whoever reveals it; left alone, it does not
/// weigh on proofs that only pass digests along.
#[verifier::opaque]
pub open spec fn sha256(data: Seq<u8>) -> Seq<u8> {
    let padded = data + padding(data.len());
    state_bytes(hash_blocks(padded, padded.len() / 64))
}

/// Adds two words modulo 2^32.
fn add_words(a: u32, b: u32) -> (r: u32)
    ensures
        r == add32(a, b),
{
    ((a as u64 + b as u64) % 0x1_0000_0000) as u32
}

/// Rotates a word to the right by `n` bits.
fn rotate_right(x: u32, n: u32) -> (r: u32)
    requires
        0 < n < 32,
    ensures
        r == rotr(x, n),
{
    (x >> n) | (x << (32 - n))
}

/// Ch: the bits of `y` where `x` is set, those of `z` where it is not.
fn choose_bits(x: u32, y: u32, z: u32) -> (r: u32)
    ensures
        r == ch(x, y, z),
{
    (x & y) ^ (!x & z)
}

/// Maj: at each place, the bit that two or more of the words share.
fn majority(x: u32, y: u32, z: u32) -> (r: u32)
    ensures
        r == maj(x, y, z),
{
    (x & y) ^ (x & z) ^ (y & z)
}

/// The capital sigma with index 0.
fn upper_sigma0(x: u32) -> (r: u32)
    ensures
        r == big_sigma0(x),
{
    rotate_right(x, 2) ^ rotate_right(x, 13) ^ rotate_right(x, 22)
}

/// The capital sigma with index 1.
fn upper_sigma1(x: u32) -> (r: u32)
    ensures
        r == big_sigma1(x),
{
    rotate_right(x, 6) ^ rotate_right(x, 11) ^ rotate_right(x, 25)
}

/// The small sigma with index 0.
fn lower_sigma0(x: u32) -> (r: u32)
    ensures
        r == small_sigma0(x),
{
    rotate_right(x, 7) ^ rotate_right(x, 18) ^ (x >> 3u32)
}

/// The small sigma with index 1.
fn lower_sigma1(x: u32) -> (r: u32)
    ensures
        r == small_sigma1(x),
{
    rotate_right(x, 17) ^ rotate_right(x, 19) ^ (x >> 10u32)
}

/// The round constants, as a table.
fn round_constant_table() -> (k: Vec<u32>)
    ensures
        k@ == round_constants(),
{
    let k: Vec<u32> = vec![
        0x428a2f98u32, 0x71374491u32, 0xb5c0fbcfu32, 0xe9b5dba5u32,
        0x3956c25bu32, 0x59f111f1u32, 0x923f82a4u32, 0xab1c5ed5u32,
        0xd807aa98u32, 0x12835b01u32, 0x243185beu32, 0x550c7dc3u32,
        0x72be5d74u32, 0x80deb1feu32, 0x9bdc06a7u32, 0xc19bf174u32,
        0xe49b69c1u32, 0xefbe4786u32, 0x0fc19dc6u32, 0x240ca1ccu32,
        0x2de92c6fu32, 0x4a7484aau32, 0x5cb0a9dcu32, 0x76f988dau32,
        0x983e5152u32, 0xa831c66du32, 0xb00327c8u32, 0xbf597fc7u32,
        0xc6e00bf3u32, 0xd5a79147u32, 0x06ca6351u32, 0x14292967u32,
        0x27b70a85u32, 0x2e1b2138u32, 0x4d2c6dfcu32, 0x53380d13u32,
        0x650a7354u32, 0x766a0abbu32, 0x81c2c92eu32, 0x92722c85u32,
        0xa2bfe8a1u32, 0xa81a664bu32, 0xc24b8b70u32, 0xc76c51a3u32,
        0xd192e819u32, 0xd6990624u32, 0xf40e3585u32, 0x106aa070u32,
        0x19a4c116u32, 0x1e376c08u32, 0x2748774cu32, 0x34b0bcb5u32,
        0x391c0cb3u32, 0x4ed8aa4au32, 0x5b9cca4fu32, 0x682e6ff3u32,
        0x748f82eeu32, 0x78a5636fu32, 0x84c87814u32, 0x8cc70208u32,
        0x90befffau32, 0xa4506cebu32, 0xbef9a3f7u32, 0xc67178f2u32,
    ];
    assert(k@ =~= round_constants());
    k
}

/// The hash value before the first block.
fn initial_hash_value() -> (h: Vec<u32>)
    ensures
        h@ == initial_state(),
{
    let h: Vec<u32> = vec![
        0x6a09e667u32, 0xbb67ae85u32, 0x3c6ef372u32, 0xa54ff53au32,
        0x510e527fu32, 0x9b05688cu32, 0x1f83d9abu32, 0x5be0cd19u32,
    ];
    assert(h@ =~= initial_state());
    h
}

/// The sixty-four words of the schedule of the block that starts at `at`.
fn expand_block(buf: &[u8], at: usize) -> (w: Vec<u32>)
    requires
        at + 64 <= buf@.len(),
    ensures
        w@ == schedule(block_words(buf@.subrange(at as int, at + 64)), 64),
        w@.len() == 64,
{
    let ghost bytes = buf@.subrange(at as int, at + 64);
    let ghost block = block_words(bytes);
    let len = buf.len();
    let mut w: Vec<u32> = Vec::new();
    let mut t: usize = 0;
    while t < 16
        invariant
            t <= 16,
            at + 64 <= len == buf@.len(),
            bytes == buf@.subrange(at as int, at + 64),
            block == block_words(bytes),
            w@ == block.take(t as int),
        decreases 16 - t,
    {
        let x = get_be32(buf, at + 4 * t);
        assert(buf@.subrange(at + 4 * t, at + 4 * t + 4) =~= bytes.subrange(4 * t, 4 * t + 4));
        w.push(x);
        t = t + 1;
        assert(w@ =~= block.take(t as int));
    }
    assert(w@ == schedule(block, 16));
    while t < 64
        invariant
            16 <= t <= 64,
            block.len() == 16,
            w@ == schedule(block, t as nat),
            w@.len() == t,
        decreases 64 - t,
    {
        let s1 = lower_sigma1(w[t - 2]);
        let s0 = lower_sigma0(w[t - 15]);
        let x = add_words(add_words(add_words(s1, w[t - 7]), s0), w[t - 16]);
        w.push(x);
        t = t + 1;
    }
    w
}

/// Folds the block of `buf` that starts at `at` into the hash value `h`.
fn compress_block(h: &mut Vec<u32>, k: &Vec<u32>, buf: &[u8], at: usize)
    requires
        old(h)@.len() == 8,
        k@ == round_constants(),
        at + 64 <= buf@.len(),
    ensures
        final(h)@ == compress(old(h)@, block_words(buf@.subrange(at as int, at + 64))),
        final(h)@.len() == 8,
{
    let w = expand_block(buf, at);
    let ghost h0 = h@;
    let mut a: u32 = h[0];
    let mut b: u32 = h[1];
    let mut c: u32 = h[2];
    let mut d: u32 = h[3];
    let mut e: u32 = h[4];
    let mut f: u32 = h[5];
    let mut g: u32 = h[6];
    let mut hh: u32 = h[7];
    assert(seq![a, b, c, d, e, f, g, hh] =~= h0);
    let mut t: usize = 0;
    while t < 64
        invariant
            t <= 64,
            w@.len() == 64,
            k@ == round_constants(),
            seq![a, b, c, d, e, f, g, hh] == rounds(h0, w@, t as nat),
        decreases 64 - t,
    {
        let ghost s = seq![a, b, c, d, e, f, g, hh];
        let t1 = add_words(
            add_words(add_words(add_words(hh, upper_sigma1(e)), choose_bits(e, f, g)), k[t]),
            w[t],
        );
        let t2 = add_words(upper_sigma0(a), majority(a, b, c));
        hh = g;
        g = f;
        f = e;
        e = add_words(d, t1);
        d = c;
        c = b;
        b = a;
        a = add_words(t1, t2);
        t = t + 1;
        assert(seq![a, b, c, d, e, f, g, hh] =~= round(s, k@[t - 1], w@[t - 1]));
    }
    let ghost r = rounds(h0, w@, 64);
    assert(r == seq![a, b, c, d, e, f, g, hh]);
    let n0 = add_words(h[0], a);
    let n1 = add_words(h[1], b);
    let n2 = add_words(h[2], c);
    let n3 = add_words(h[3], d);
    let n4 = add_words(h[4], e);
    let n5 = add_words(h[5], f);
    let n6 = add_words(h[6], g);
    let n7 = add_words(h[7], hh);
    let mut out: Vec<u32> = Vec::new();
    out.push(n0);
    out.push(n1);
    out.push(n2);
    out.push(n3);
    out.push(n4);
    out.push(n5);
    out.push(n6);
    out.push(n7);
    proof {
        reveal(compress);
    }
    assert(out@ =~= compress(h0, block_words(buf@.subrange(at as int, at + 64))));
    *h = out;
}

/// The number of zero bytes in the padding brings the padded message to
/// the end of a block: one block after the message's whole blocks, or two
/// where a single one has no room for the length field.
proof fn lemma_zero_count(len: nat)
    ensures
        len % 64 <= 55 ==> zero_count(len) == 55 - len % 64,
        len % 64 > 55 ==> zero_count(len) == 119 - len % 64,
        (len + 9 + zero_count(len)) % 64 == 0,
        (len + 9 + zero_count(len)) / 64 == len / 64 + (len % 64 + 9 + zero_count(len)) / 64,
{
    let r = (len % 64) as int;
    let q = (len / 64) as int;
    assert(len == 64 * q + r);
    if r <= 55 {
        assert(zero_count(len) == 55 - r);
        assert(len + 9 + zero_count(len) == 64 * (q + 1));
    } else {
        assert(zero_count(len) == 119 - r);
        assert(len + 9 + zero_count(len) == 64 * (q + 2));
    }
}

/// The padded message is a whole number of blocks: the message's own whole
/// blocks, then one or two more.
pub proof fn lemma_padding_fills_blocks(len: nat)
    ensures
        padding(len).len() == 9 + zero_count(len),
        (len + padding(len).len()) % 64 == 0,
        len % 64 + padding(len).len() == 64 || len % 64 + padding(len).len() == 128,
        (len + padding(len).len()) / 64 == len / 64 + (len % 64 + padding(len).len()) / 64,
{
    lemma_padding_len(len);
    lemma_zero_count(len);
}

/// The padding is a byte, the zero bytes, and the eight bytes of the
/// length.
proof fn lemma_padding_len(len: nat)
    ensures
        padding(len).len() == 9 + zero_count(len),
{
    assert(length_field(len).len() == 8);
}

/// The padding of a message of `len` bytes.
fn padding_bytes(len: usize) -> (p: Vec<u8>)
    ensures
        p@ == padding(len as nat),
{
    let zeros: usize = (119 - len % 64) % 64;
    let mut p: Vec<u8> = Vec::new();
    p.push(0x80);
    let mut z: usize = 0;
    while z < zeros
        invariant
            z <= zeros,
            p@ == seq![0x80u8] + Seq::new(z as nat, |i: int| 0u8),
        decreases zeros - z,
    {
        p.push(0);
        z = z + 1;
        assert(p@ =~= seq![0x80u8] + Seq::new(z as nat, |i: int| 0u8));
    }
    let bits: u128 = (len as u128 * 8) % 0x1_0000_0000_0000_0000;
    put_be32(&mut p, (bits / 0x1_0000_0000) as u32);
    put_be32(&mut p, (bits % 0x1_0000_0000) as u32);
    assert(p@ =~= padding(len as nat));
    p
}

/// Block `b` of a buffer that holds the blocks of `whole` from block `done`
/// on is block `done + b` of `whole`.
proof fn lemma_same_block(buf: Seq<u8>, whole: Seq<u8>, count: int, done: int, b: int)
    requires
        0 <= b < count,
        0 <= done,
        count * 64 <= buf.len(),
        64 * done + count * 64 <= whole.len(),
        buf.subrange(0, count * 64) == whole.subrange(64 * done, 64 * done + count * 64),
    ensures
        buf.subrange(b * 64, b * 64 + 64) == whole.subrange(64 * (done + b), 64 * (done + b + 1)),
{
    let part = buf.subrange(0, count * 64);
    assert(buf.subrange(b * 64, b * 64 + 64) =~= part.subrange(b * 64, b * 64 + 64));
    assert(part.subrange(b * 64, b * 64 + 64) =~= whole.subrange(
        64 * (done + b),
        64 * (done + b + 1),
    ));
}

/// Folds the first `count` blocks of `buf` into `h`, where `buf` holds the
/// blocks of `whole` from block `done` on.
fn absorb_blocks(
    h: &mut Vec<u32>,
    k: &Vec<u32>,
    buf: &[u8],
    count: usize,
    Ghost(whole): Ghost<Seq<u8>>,
    Ghost(done): Ghost<nat>,
)
    requires
        old(h)@.len() == 8,
        old(h)@ == hash_blocks(whole, done),
        k@ == round_constants(),
        count * 64 <= buf@.len(),
        64 * done + count * 64 <= whole.len(),
        buf@.subrange(0, count * 64) == whole.subrange(64 * (done as int), 64 * done + count * 64),
    ensures
        final(h)@.len() == 8,
        final(h)@ == hash_blocks(whole, (done + count) as nat),
{
    let len = buf.len();
    let mut b: usize = 0;
    while b < count
        invariant
            b <= count,
            count * 64 <= len == buf@.len(),
            64 * done + count * 64 <= whole.len(),
            buf@.subrange(0, count * 64) == whole.subrange(
                64 * (done as int),
                64 * done + count * 64,
            ),
            k@ == round_constants(),
            h@.len() == 8,
            h@ == hash_blocks(whole, (done + b) as nat),
        decreases count - b,
    {
        compress_block(h, k, buf, b * 64);
        proof {
            lemma_same_block(buf@, whole, count as int, done as int, b as int);
        }
        b = b + 1;
    }
}

/// The bytes of a hash value.
fn hash_value_bytes(h: &Vec<u32>) -> (out: Vec<u8>)
    requires
        h@.len() == 8,
    ensures
        out@ == state_bytes(h@),
        out@.len() == DIGEST_LEN,
{
    let mut out: Vec<u8> = Vec::new();
    put_be32(&mut out, h[0]);
    put_be32(&mut out, h[1]);
    put_be32(&mut out, h[2]);
    put_be32(&mut out, h[3]);
    put_be32(&mut out, h[4]);
    put_be32(&mut out, h[5]);
    put_be32(&mut out, h[6]);
    put_be32(&mut out, h[7]);
    assert(out@ =~= state_bytes(h@));
    out
}

/// The digest of `data`: its SHA-256 hash, `DIGEST_LEN` bytes long.
pub fn content_hash(data: &[u8]) -> (digest: Vec<u8>)
    ensures
        digest@ == sha256(data@),
        digest@.len() == DIGEST_LEN,
{
    let len = data.len();
    let k = round_constant_table();
    let mut h = initial_hash_value();
    let full: usize = len / 64;
    let ghost padded = data@ + padding(len as nat);
    proof {
        lemma_padding_fills_blocks(len as nat);
        assert(data@.subrange(0, full * 64) =~= padded.subrange(0, full * 64));
    }
    absorb_blocks(&mut h, &k, data, full, Ghost(padded), Ghost(0));
    let mut tail: Vec<u8> = Vec::new();
    put_bytes(&mut tail, data, full * 64, len);
    let mut pad = padding_bytes(len);
    tail.append(&mut pad);
    let tail_blocks: usize = tail.len() / 64;
    proof {
        assert(tail@ =~= padded.subrange(full * 64, padded.len() as int));
        assert(tail@.subrange(0, tail_blocks * 64) =~= padded.subrange(
            64 * full,
            64 * full + tail_blocks * 64,
        ));
    }
    absorb_blocks(&mut h, &k, tail.as_slice(), tail_blocks, Ghost(padded), Ghost(full as nat));
    assert(padded.len() / 64 == full + tail_blocks);
    proof {
        reveal(sha256);
    }
    hash_value_bytes(&h)
}

/// Every digest is `DIGEST_LEN` bytes long.
pub proof fn lemma_digest_len(data: Seq<u8>)
    ensures
        sha256(data).len() == DIGEST_LEN,
{
    reveal(sha256);
}

} // verus!
