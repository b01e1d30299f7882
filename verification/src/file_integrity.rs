//! Checking files: the hashes catalogs publish and the fingerprint
//! CurseForge identifies files by.
use crate::domain::{FileHash, HashAlgorithm};
use crate::text::{ascii_lower, ascii_lower_char, chars_of, string_of};
use vstd::prelude::*;

verus! {

/// The multiplier of MurmurHash2.
pub const MURMUR_M: u32 = 0x5bd1e995;

/// A little-endian `u32` from four bytes.
pub open spec fn le_word(b0: u8, b1: u8, b2: u8, b3: u8) -> u32 {
    (b0 as u32) | ((b1 as u32) << 8u32) | ((b2 as u32) << 16u32) | ((b3 as u32) << 24u32)
}

/// The hash after mixing in one four-byte word.
pub open spec fn murmur_step(hash: u32, word: u32) -> u32 {
    let a = word.wrapping_mul(MURMUR_M);
    let b = a ^ (a >> 24u32);
    let c = b.wrapping_mul(MURMUR_M);
    hash.wrapping_mul(MURMUR_M) ^ c
}

/// The hash after every whole four-byte word of `data`, in order.
pub open spec fn murmur_words(data: Seq<u8>, hash: u32) -> u32
    decreases data.len(),
{
    if data.len() < 4 {
        hash
    } else {
        murmur_words(data.subrange(4, data.len() as int), murmur_step(hash, le_word(data[0], data[1], data[2], data[3])))
    }
}

/// The hash after the one to three bytes left over.
pub open spec fn murmur_tail(hash: u32, rest: Seq<u8>) -> u32 {
    if rest.len() == 3 {
        (hash ^ ((rest[2] as u32) << 16u32) ^ ((rest[1] as u32) << 8u32) ^ (rest[0] as u32)).wrapping_mul(MURMUR_M)
    } else if rest.len() == 2 {
        (hash ^ ((rest[1] as u32) << 8u32) ^ (rest[0] as u32)).wrapping_mul(MURMUR_M)
    } else if rest.len() == 1 {
        (hash ^ (rest[0] as u32)).wrapping_mul(MURMUR_M)
    } else {
        hash
    }
}

pub open spec fn murmur_finish(hash: u32) -> u32 {
    let a = hash ^ (hash >> 13u32);
    let b = a.wrapping_mul(MURMUR_M);
    b ^ (b >> 15u32)
}

/// MurmurHash2 (32 bits) of `data` with the given seed.
pub open spec fn murmur2_spec(data: Seq<u8>, seed: u32) -> u32 {
    let whole = data.len() - data.len() % 4;
    murmur_finish(
        murmur_tail(
            murmur_words(data, seed ^ (data.len() as u32)),
            data.subrange(whole, data.len() as int),
        ),
    )
}

/// The number that bytes stand for when read least significant byte first.
pub open spec fn le_number(bytes: Seq<u8>) -> nat
    decreases bytes.len(),
{
    if bytes.len() == 0 {
        0
    } else {
        bytes[0] as nat + 256 * le_number(bytes.drop_first())
    }
}

/// Each four-byte word of the data is read least significant byte first.
pub proof fn law_word_is_little_endian(b0: u8, b1: u8, b2: u8, b3: u8)
    ensures
        le_word(b0, b1, b2, b3) as nat == le_number(seq![b0, b1, b2, b3]),
{
    let s = seq![b0, b1, b2, b3];
    assert(s.drop_first() =~= seq![b1, b2, b3]);
    assert(s.drop_first().drop_first() =~= seq![b2, b3]);
    assert(s.drop_first().drop_first().drop_first() =~= seq![b3]);
    assert(s.drop_first().drop_first().drop_first().drop_first() =~= Seq::<u8>::empty());
    reveal_with_fuel(le_number, 5);
    assert((b0 as u32) | ((b1 as u32) << 8u32) | ((b2 as u32) << 16u32) | ((b3 as u32) << 24u32)
        == b0 as u32 + 256 * (b1 as u32 + 256 * (b2 as u32 + 256 * (b3 as u32 + 0)))) by (bit_vector);
}

/// The one to three bytes after the last whole word are mixed in as one more
/// word: the bytes read least significant first, as if padded with zeros,
/// xor-ed into the hash, which is then multiplied by the constant.
pub proof fn law_tail_is_little_endian(hash: u32, rest: Seq<u8>)
    requires
        1 <= rest.len() <= 3,
    ensures
        le_number(rest) < 0x1000000,
        murmur_tail(hash, rest) == (hash ^ (le_number(rest) as u32)).wrapping_mul(MURMUR_M),
{
    reveal_with_fuel(le_number, 4);
    let r0 = rest[0];
    if rest.len() == 1 {
        assert(rest.drop_first() =~= Seq::<u8>::empty());
        assert(le_number(rest) == r0 as nat);
    } else if rest.len() == 2 {
        let r1 = rest[1];
        assert(rest.drop_first() =~= seq![r1]);
        assert(seq![r1].drop_first() =~= Seq::<u8>::empty());
        assert(le_number(rest) == r0 as nat + 256 * r1 as nat);
        assert(hash ^ ((r1 as u32) << 8u32) ^ (r0 as u32) == hash ^ ((r0 as u32 + 256 * r1 as u32) as u32))
            by (bit_vector);
    } else {
        let r1 = rest[1];
        let r2 = rest[2];
        assert(rest.drop_first() =~= seq![r1, r2]);
        assert(seq![r1, r2].drop_first() =~= seq![r2]);
        assert(seq![r2].drop_first() =~= Seq::<u8>::empty());
        assert(le_number(rest) == r0 as nat + 256 * (r1 as nat + 256 * r2 as nat));
        assert(hash ^ ((r2 as u32) << 16u32) ^ ((r1 as u32) << 8u32) ^ (r0 as u32)
            == hash ^ ((r0 as u32 + 256 * (r1 as u32 + 256 * r2 as u32)) as u32)) by (bit_vector);
    }
}

proof fn lemma_murmur_short(data: Seq<u8>, seed: u32)
    requires
        data.len() < 4,
    ensures
        murmur2_spec(data, seed) == murmur_finish(murmur_tail(seed ^ (data.len() as u32), data)),
{
    assert(data.subrange(0, data.len() as int) =~= data);
}

proof fn lemma_murmur_one_word(data: Seq<u8>, seed: u32)
    requires
        4 <= data.len() < 8,
    ensures
        murmur2_spec(data, seed) == murmur_finish(
            murmur_tail(
                murmur_step(seed ^ (data.len() as u32), le_word(data[0], data[1], data[2], data[3])),
                data.subrange(4, data.len() as int),
            ),
        ),
{
    let rest = data.subrange(4, data.len() as int);
    let hash = murmur_step(seed ^ (data.len() as u32), le_word(data[0], data[1], data[2], data[3]));
    assert(murmur_words(rest, hash) == hash);
    assert(data.len() % 4 == data.len() - 4);
}

#[verifier::spinoff_prover]
proof fn lemma_reference_whole_word()
    ensures
        murmur2_spec(seq![97u8, 98u8, 99u8, 100u8], 1) == 0xc93f7a16u32,
{
    let data = seq![97u8, 98u8, 99u8, 100u8];
    lemma_murmur_one_word(data, 1);
    assert(data.subrange(4, 4) =~= Seq::<u8>::empty());
    assert((1u32 ^ 4u32) == 0x00000005u32 &&
        le_word(97u8, 98u8, 99u8, 100u8) == 0x64636261u32 &&
        (0xae938b75u32 ^ (0xae938b75u32 >> 24u32)) == 0xae938bdbu32 &&
        (0xcb198fe9u32 ^ 0xecf5b977u32) == 0x27ec369eu32 &&
        (0x27ec369eu32 ^ (0x27ec369eu32 >> 13u32)) == 0x27ed09ffu32 &&
        (0xc93ee86bu32 ^ (0xc93ee86bu32 >> 15u32)) == 0xc93f7a16u32) by (bit_vector);
    assert(0x64636261u32.wrapping_mul(MURMUR_M) == 0xae938b75u32);
    assert(0xae938bdbu32.wrapping_mul(MURMUR_M) == 0xecf5b977u32);
    assert(0x00000005u32.wrapping_mul(MURMUR_M) == 0xcb198fe9u32);
    assert(0x27ed09ffu32.wrapping_mul(MURMUR_M) == 0xc93ee86bu32);
}

#[verifier::spinoff_prover]
proof fn lemma_reference_one_left()
    ensures
        murmur2_spec(seq![97u8, 98u8, 99u8, 100u8, 101u8], 1) == 0xcec85d7eu32,
{
    let data = seq![97u8, 98u8, 99u8, 100u8, 101u8];
    let rest = seq![101u8];
    assert(data.subrange(4, 5) =~= rest);
    assert((1u32 ^ 5u32) == 0x00000004u32 &&
        le_word(97u8, 98u8, 99u8, 100u8) == 0x64636261u32 &&
        (0xae938b75u32 ^ (0xae938b75u32 >> 24u32)) == 0xae938bdbu32 &&
        (0x6f47a654u32 ^ 0xecf5b977u32) == 0x83b21f23u32 &&
        (0x83b21f23u32 ^ 101u32) == 0x83b21f46u32 &&
        (0x2f48e9beu32 ^ (0x2f48e9beu32 >> 13u32)) == 0x2f4993f9u32 &&
        (0xcec9c0edu32 ^ (0xcec9c0edu32 >> 15u32)) == 0xcec85d7eu32) by (bit_vector);
    assert(0x64636261u32.wrapping_mul(MURMUR_M) == 0xae938b75u32);
    assert(0xae938bdbu32.wrapping_mul(MURMUR_M) == 0xecf5b977u32);
    assert(0x00000004u32.wrapping_mul(MURMUR_M) == 0x6f47a654u32);
    assert(0x83b21f46u32.wrapping_mul(MURMUR_M) == 0x2f48e9beu32);
    assert(0x2f4993f9u32.wrapping_mul(MURMUR_M) == 0xcec9c0edu32);
    assert(murmur_step(0x00000004u32, 0x64636261u32) == 0x83b21f23u32);
    assert(murmur_tail(0x83b21f23u32, rest) == 0x2f48e9beu32);
    assert(murmur_finish(0x2f48e9beu32) == 0xcec85d7eu32);
    assert(data[0] == 97u8 && data[1] == 98u8 && data[2] == 99u8 && data[3] == 100u8);
    lemma_murmur_one_word(data, 1);
}

#[verifier::spinoff_prover]
proof fn lemma_reference_two_left()
    ensures
        murmur2_spec(seq![109u8, 111u8, 115u8, 97u8, 105u8, 99u8], 1) == 0x38fe2e60u32,
{
    let data = seq![109u8, 111u8, 115u8, 97u8, 105u8, 99u8];
    let rest = seq![105u8, 99u8];
    assert(data.subrange(4, 6) =~= rest);
    assert((1u32 ^ 6u32) == 0x00000007u32 &&
        le_word(109u8, 111u8, 115u8, 97u8) == 0x61736f6du32 &&
        (0x7f970f71u32 ^ (0x7f970f71u32 >> 24u32)) == 0x7f970f0eu32 &&
        (0x82bd6313u32 ^ 0x040d8126u32) == 0x86b0e235u32 &&
        (0x86b0e235u32 ^ (99u32 << 8u32) ^ 105u32) == 0x86b0815cu32 &&
        (0x5a94068cu32 ^ (0x5a94068cu32 >> 13u32)) == 0x5a96d22cu32 &&
        (0x38fe5f9cu32 ^ (0x38fe5f9cu32 >> 15u32)) == 0x38fe2e60u32) by (bit_vector);
    assert(0x61736f6du32.wrapping_mul(MURMUR_M) == 0x7f970f71u32);
    assert(0x7f970f0eu32.wrapping_mul(MURMUR_M) == 0x040d8126u32);
    assert(0x00000007u32.wrapping_mul(MURMUR_M) == 0x82bd6313u32);
    assert(0x86b0815cu32.wrapping_mul(MURMUR_M) == 0x5a94068cu32);
    assert(0x5a96d22cu32.wrapping_mul(MURMUR_M) == 0x38fe5f9cu32);
    assert(murmur_step(0x00000007u32, 0x61736f6du32) == 0x86b0e235u32);
    assert(murmur_tail(0x86b0e235u32, rest) == 0x5a94068cu32);
    assert(murmur_finish(0x5a94068cu32) == 0x38fe2e60u32);
    assert(data[0] == 109u8 && data[1] == 111u8 && data[2] == 115u8 && data[3] == 97u8);
    lemma_murmur_one_word(data, 1);
}

#[verifier::spinoff_prover]
proof fn lemma_reference_no_word()
    ensures
        murmur2_spec(seq![97u8, 98u8, 99u8], 1) == 0x60a4fcc1u32,
{
    let data = seq![97u8, 98u8, 99u8];
    lemma_murmur_short(data, 1);
    assert((1u32 ^ 3u32) == 0x00000002u32 &&
        (0x00000002u32 ^ (99u32 << 16u32) ^ (98u32 << 8u32) ^ 97u32) == 0x00636263u32 &&
        (0x32375e9fu32 ^ (0x32375e9fu32 >> 13u32)) == 0x3236cf25u32 &&
        (0x60a43d89u32 ^ (0x60a43d89u32 >> 15u32)) == 0x60a4fcc1u32) by (bit_vector);
    assert(0x00636263u32.wrapping_mul(MURMUR_M) == 0x32375e9fu32);
    assert(0x3236cf25u32.wrapping_mul(MURMUR_M) == 0x60a43d89u32);
}

#[verifier::spinoff_prover]
proof fn lemma_reference_three_left()
    ensures
        murmur2_spec(seq![115u8, 111u8, 100u8, 105u8, 117u8, 109u8, 46u8], 1) == 0x1f0a92f3u32,
{
    let data = seq![115u8, 111u8, 100u8, 105u8, 117u8, 109u8, 46u8];
    let rest = seq![117u8, 109u8, 46u8];
    assert(data.subrange(4, 7) =~= rest);
    assert((1u32 ^ 7u32) == 0x00000006u32 &&
        le_word(115u8, 111u8, 100u8, 105u8) == 0x69646f73u32 &&
        (0x9ec788efu32 ^ (0x9ec788efu32 >> 24u32)) == 0x9ec78871u32 &&
        (0x26eb797eu32 ^ 0x949242c5u32) == 0xb2793bbbu32 &&
        (0xb2793bbbu32 ^ (46u32 << 16u32) ^ (109u32 << 8u32) ^ 117u32) == 0xb25756ceu32 &&
        (0x630503e6u32 ^ (0x630503e6u32 >> 13u32)) == 0x63061bceu32 &&
        (0x1f0aace6u32 ^ (0x1f0aace6u32 >> 15u32)) == 0x1f0a92f3u32) by (bit_vector);
    assert(0x69646f73u32.wrapping_mul(MURMUR_M) == 0x9ec788efu32);
    assert(0x9ec78871u32.wrapping_mul(MURMUR_M) == 0x949242c5u32);
    assert(0x00000006u32.wrapping_mul(MURMUR_M) == 0x26eb797eu32);
    assert(0xb25756ceu32.wrapping_mul(MURMUR_M) == 0x630503e6u32);
    assert(0x63061bceu32.wrapping_mul(MURMUR_M) == 0x1f0aace6u32);
    assert(murmur_step(0x00000006u32, 0x69646f73u32) == 0xb2793bbbu32);
    assert(murmur_tail(0xb2793bbbu32, rest) == 0x630503e6u32);
    assert(murmur_finish(0x630503e6u32) == 0x1f0a92f3u32);
    assert(data[0] == 115u8 && data[1] == 111u8 && data[2] == 100u8 && data[3] == 105u8);
    lemma_murmur_one_word(data, 1);
}

/// Reference values of MurmurHash2 with seed 1, for the texts "abcd",
/// "abcde", "mosaic", "abc" and "sodium.": after their whole words none, one,
/// two and three bytes are left, and "abc" has no whole word.
pub proof fn murmur2_reference_values()
    ensures
        murmur2_spec(seq![97u8, 98u8, 99u8, 100u8], 1) == 0xc93f7a16u32,
        murmur2_spec(seq![97u8, 98u8, 99u8, 100u8, 101u8], 1) == 0xcec85d7eu32,
        murmur2_spec(seq![109u8, 111u8, 115u8, 97u8, 105u8, 99u8], 1) == 0x38fe2e60u32,
        murmur2_spec(seq![97u8, 98u8, 99u8], 1) == 0x60a4fcc1u32,
        murmur2_spec(seq![115u8, 111u8, 100u8, 105u8, 117u8, 109u8, 46u8], 1) == 0x1f0a92f3u32,
{
    lemma_reference_whole_word();
    lemma_reference_one_left();
    lemma_reference_two_left();
    lemma_reference_no_word();
    lemma_reference_three_left();
}

proof fn lemma_words_skip(data: Seq<u8>, i: int, hash: u32)
    requires
        0 <= i,
        i + 4 <= data.len(),
    ensures
        murmur_words(data.skip(i), hash) == murmur_words(
            data.skip(i + 4),
            murmur_step(hash, le_word(data[i], data[i + 1], data[i + 2], data[i + 3])),
        ),
{
    let s = data.skip(i);
    assert(s.subrange(4, s.len() as int) =~= data.skip(i + 4));
}

proof fn lemma_words_short(data: Seq<u8>, hash: u32)
    requires
        data.len() < 4,
    ensures
        murmur_words(data, hash) == hash,
{
}

fn read_word(data: &[u8], i: usize) -> (r: u32)
    requires
        i + 4 <= data@.len(),
    ensures
        r == le_word(data@[i as int], data@[i + 1], data@[i + 2], data@[i + 3]),
{
    (data[i] as u32) | ((data[i + 1] as u32) << 8u32) | ((data[i + 2] as u32) << 16u32) | ((data[i + 3] as u32) << 24u32)
}

fn mix_word(hash: u32, word: u32) -> (r: u32)
    ensures
        r == murmur_step(hash, word),
{
    let a = word.wrapping_mul(MURMUR_M);
    let b = a ^ (a >> 24u32);
    let c = b.wrapping_mul(MURMUR_M);
    hash.wrapping_mul(MURMUR_M) ^ c
}

fn mix_tail(hash: u32, data: &[u8], i: usize) -> (r: u32)
    requires
        i <= data@.len(),
        data@.len() - i < 4,
    ensures
        r == murmur_tail(hash, data@.subrange(i as int, data@.len() as int)),
{
    let rest = data.len() - i;
    let ghost tail = data@.subrange(i as int, data@.len() as int);
    if rest == 3 {
        assert(tail[2] == data@[i + 2] && tail[1] == data@[i + 1] && tail[0] == data@[i as int]);
        (hash ^ ((data[i + 2] as u32) << 16u32) ^ ((data[i + 1] as u32) << 8u32) ^ (data[i] as u32)).wrapping_mul(MURMUR_M)
    } else if rest == 2 {
        assert(tail[1] == data@[i + 1] && tail[0] == data@[i as int]);
        (hash ^ ((data[i + 1] as u32) << 8u32) ^ (data[i] as u32)).wrapping_mul(MURMUR_M)
    } else if rest == 1 {
        assert(tail[0] == data@[i as int]);
        (hash ^ (data[i] as u32)).wrapping_mul(MURMUR_M)
    } else {
        hash
    }
}

fn finish_hash(hash: u32) -> (r: u32)
    ensures
        r == murmur_finish(hash),
{
    let a = hash ^ (hash >> 13u32);
    let b = a.wrapping_mul(MURMUR_M);
    b ^ (b >> 15u32)
}

/// MurmurHash2 as CurseForge computes fingerprints with it.
#[verifier::spinoff_prover]
#[verifier::rlimit(30)]
pub fn murmur2(data: &[u8], seed: u32) -> (r: u32)
    ensures
        r == murmur2_spec(data@, seed),
{
    let n = data.len();
    let mut hash: u32 = seed ^ (n as u32);
    let ghost start = hash;
    let mut i: usize = 0;
    assert(data@.skip(0) =~= data@);
    while n - i >= 4
        invariant
            n == data@.len(),
            i <= n,
            i % 4 == 0,
            murmur_words(data@, start) == murmur_words(data@.skip(i as int), hash),
        decreases n - i,
    {
        let word = read_word(data, i);
        proof {
            lemma_words_skip(data@, i as int, hash);
        }
        hash = mix_word(hash, word);
        i = i + 4;
    }
    proof {
        lemma_words_short(data@.skip(i as int), hash);
        assert(i == n - n % 4);
    }
    let tailed = mix_tail(hash, data, i);
    finish_hash(tailed)
}


/// Tab, line feed, carriage return and space, which fingerprints ignore.
pub open spec fn fingerprint_blank(b: u8) -> bool {
    b == 9 || b == 10 || b == 13 || b == 32
}

/// The bytes a fingerprint is computed over.
pub open spec fn fingerprint_bytes(data: Seq<u8>) -> Seq<u8>
    decreases data.len(),
{
    if data.len() == 0 {
        Seq::empty()
    } else if fingerprint_blank(data.last()) {
        fingerprint_bytes(data.drop_last())
    } else {
        fingerprint_bytes(data.drop_last()).push(data.last())
    }
}

/// The CurseForge fingerprint of a file's contents: MurmurHash2 with seed 1
/// over the bytes that are not whitespace.
pub fn curseforge_fingerprint(data: &Vec<u8>) -> (r: u32)
    ensures
        r == murmur2_spec(fingerprint_bytes(data@), 1),
{
    let mut kept: Vec<u8> = Vec::new();
    let mut i: usize = 0;
    while i < data.len()
        invariant
            i <= data.len(),
            kept@ == fingerprint_bytes(data@.take(i as int)),
        decreases data.len() - i,
    {
        proof {
            assert(data@.take(i + 1).drop_last() =~= data@.take(i as int));
        }
        let b = data[i];
        if !(b == 9 || b == 10 || b == 13 || b == 32) {
            kept.push(b);
        }
        i = i + 1;
    }
    assert(data@.take(data.len() as int) =~= data@);
    murmur2(kept.as_slice(), 1)
}

/// What `sha2::Sha512::digest` returns for the bytes.
pub uninterp spec fn sha512_digest(data: Seq<u8>) -> Seq<u8>;

/// What `sha1::Sha1::digest` returns for the bytes.
pub uninterp spec fn sha1_digest(data: Seq<u8>) -> Seq<u8>;

/// What `md5::Md5::digest` returns for the bytes.
pub uninterp spec fn md5_digest(data: Seq<u8>) -> Seq<u8>;

/// Calls `Digest::digest` of `sha2::Sha512`; the contract claims only that
/// the bytes are the named digest of the input.
#[verifier::external_body]
fn sha512_of(data: &[u8]) -> (r: Vec<u8>)
    ensures
        r@ == sha512_digest(data@),
{
    <sha2::Sha512 as sha2::Digest>::digest(data).to_vec()
}

/// Calls `Digest::digest` of `sha1::Sha1`; the contract claims only that
/// the bytes are the named digest of the input.
#[verifier::external_body]
fn sha1_of(data: &[u8]) -> (r: Vec<u8>)
    ensures
        r@ == sha1_digest(data@),
{
    <sha1::Sha1 as sha1::Digest>::digest(data).to_vec()
}

/// Calls `Digest::digest` of `md5::Md5`; the contract claims only that the
/// bytes are the named digest of the input.
#[verifier::external_body]
fn md5_of(data: &[u8]) -> (r: Vec<u8>)
    ensures
        r@ == md5_digest(data@),
{
    <md5::Md5 as md5::Digest>::digest(data).to_vec()
}

pub open spec fn digest_of(algorithm: HashAlgorithm, data: Seq<u8>) -> Seq<u8> {
    match algorithm {
        HashAlgorithm::Sha512 => sha512_digest(data),
        HashAlgorithm::Sha1 => sha1_digest(data),
        HashAlgorithm::Md5 => md5_digest(data),
    }
}

pub open spec fn hex_digit(d: int) -> char {
    if d < 10 {
        ((d + 48) as u8) as char
    } else {
        ((d + 87) as u8) as char
    }
}

/// Lowercase hexadecimal, two digits per byte.
pub open spec fn hex_of(data: Seq<u8>) -> Seq<char>
    decreases data.len(),
{
    if data.len() == 0 {
        Seq::empty()
    } else {
        hex_of(data.drop_last()) + seq![hex_digit(data.last() as int / 16), hex_digit(data.last() as int % 16)]
    }
}

/// The lowercase hexadecimal digit for a value below sixteen.
fn hex_char(d: u8) -> (r: char)
    requires
        d < 16,
    ensures
        r == hex_digit(d as int),
{
    if d < 10 {
        (d + 48) as char
    } else {
        (d + 87) as char
    }
}

/// Writes each byte as two lowercase hexadecimal digits.
fn hex_encode(data: &[u8]) -> (r: String)
    ensures
        r@ == hex_of(data@),
{
    let mut digits: Vec<char> = Vec::new();
    let mut i: usize = 0;
    while i < data.len()
        invariant
            i <= data.len(),
            digits@ == hex_of(data@.take(i as int)),
        decreases data.len() - i,
    {
        let b = data[i];
        proof {
            assert(data@.take(i + 1).drop_last() =~= data@.take(i as int));
        }
        digits.push(hex_char(b / 16));
        digits.push(hex_char(b % 16));
        i = i + 1;
    }
    assert(data@.take(data.len() as int) =~= data@);
    string_of(digits.as_slice())
}

/// The digest of the bytes in lowercase hexadecimal.
pub fn digest_hex(algorithm: HashAlgorithm, data: &Vec<u8>) -> (r: String)
    ensures
        r@ == hex_of(digest_of(algorithm, data@)),
{
    let digest = match algorithm {
        HashAlgorithm::Sha512 => sha512_of(data.as_slice()),
        HashAlgorithm::Sha1 => sha1_of(data.as_slice()),
        HashAlgorithm::Md5 => md5_of(data.as_slice()),
    };
    hex_encode(digest.as_slice())
}

/// The texts are equal once ASCII letters are lowercased.
pub open spec fn ascii_case_equal(a: Seq<char>, b: Seq<char>) -> bool {
    a.len() == b.len() && forall|i: int| 0 <= i < a.len() ==> ascii_lower(#[trigger] a[i]) == ascii_lower(b[i])
}

/// `str::eq_ignore_ascii_case`.
pub fn eq_ignore_ascii_case(a: &str, b: &str) -> (r: bool)
    ensures
        r == ascii_case_equal(a@, b@),
{
    let x = chars_of(a);
    let y = chars_of(b);
    if x.len() != y.len() {
        return false;
    }
    let mut i: usize = 0;
    while i < x.len()
        invariant
            i <= x.len(),
            x.len() == y.len(),
            x@ == a@,
            y@ == b@,
            forall|j: int| 0 <= j < i ==> ascii_lower(#[trigger] x@[j]) == ascii_lower(y@[j]),
        decreases x.len() - i,
    {
        if ascii_lower_char(x[i]) != ascii_lower_char(y[i]) {
            return false;
        }
        i = i + 1;
    }
    true
}

/// Whether the contents match the published hash, whatever the case of its digits.
pub fn hash_matches(data: &Vec<u8>, expected: &FileHash) -> (r: bool)
    ensures
        r == ascii_case_equal(hex_of(digest_of(expected.algorithm, data@)), expected.value@),
{
    let actual = digest_hex(expected.algorithm, data);
    eq_ignore_ascii_case(actual.as_str(), expected.value.as_str())
}

/// A running SHA-512 hasher of the `sha2` crate. Verus refuses to declare the
/// hasher type itself (an alias of a generic wrapper over typenum
/// parameters), so it is held here out of Verus's sight.
#[verifier::external_body]
pub struct Sha512Stream {
    hasher: sha2::Sha512,
}

/// The bytes fed so far to a running SHA-512 hasher.
pub uninterp spec fn sha512_fed(s: Sha512Stream) -> Seq<u8>;

/// `Digest::new` of `sha2::Sha512`: a hasher that has been fed nothing.
#[verifier::external_body]
fn sha512_start() -> (r: Sha512Stream)
    ensures
        sha512_fed(r) == Seq::<u8>::empty(),
{
    Sha512Stream { hasher: <sha2::Sha512 as sha2::Digest>::new() }
}

/// `Digest::update` of `sha2::Sha512`: the bytes are fed after those fed before.
#[verifier::external_body]
fn sha512_feed(s: &mut Sha512Stream, data: &[u8])
    ensures
        sha512_fed(*final(s)) == sha512_fed(*old(s)) + data@,
{
    <sha2::Sha512 as sha2::Digest>::update(&mut s.hasher, data)
}

/// `Digest::finalize` of `sha2::Sha512`: the digest of every byte fed, the same
/// as `Digest::digest` of them all at once.
#[verifier::external_body]
fn sha512_finish(s: Sha512Stream) -> (r: Vec<u8>)
    ensures
        r@ == sha512_digest(sha512_fed(s)),
{
    <sha2::Sha512 as sha2::Digest>::finalize(s.hasher).to_vec()
}

/// A running SHA-1 hasher of the `sha1` crate. Verus refuses to declare the
/// hasher type itself (an alias of a generic wrapper over typenum
/// parameters), so it is held here out of Verus's sight.
#[verifier::external_body]
pub struct Sha1Stream {
    hasher: sha1::Sha1,
}

/// The bytes fed so far to a running SHA-1 hasher.
pub uninterp spec fn sha1_fed(s: Sha1Stream) -> Seq<u8>;

/// `Digest::new` of `sha1::Sha1`: a hasher that has been fed nothing.
#[verifier::external_body]
fn sha1_start() -> (r: Sha1Stream)
    ensures
        sha1_fed(r) == Seq::<u8>::empty(),
{
    Sha1Stream { hasher: <sha1::Sha1 as sha1::Digest>::new() }
}

/// `Digest::update` of `sha1::Sha1`: the bytes are fed after those fed before.
#[verifier::external_body]
fn sha1_feed(s: &mut Sha1Stream, data: &[u8])
    ensures
        sha1_fed(*final(s)) == sha1_fed(*old(s)) + data@,
{
    <sha1::Sha1 as sha1::Digest>::update(&mut s.hasher, data)
}

/// `Digest::finalize` of `sha1::Sha1`: the digest of every byte fed, the same
/// as `Digest::digest` of them all at once.
#[verifier::external_body]
fn sha1_finish(s: Sha1Stream) -> (r: Vec<u8>)
    ensures
        r@ == sha1_digest(sha1_fed(s)),
{
    <sha1::Sha1 as sha1::Digest>::finalize(s.hasher).to_vec()
}

/// A running MD5 hasher of the `md5` crate. Verus refuses to declare the
/// hasher type itself (an alias of a generic wrapper over typenum
/// parameters), so it is held here out of Verus's sight.
#[verifier::external_body]
pub struct Md5Stream {
    hasher: md5::Md5,
}

/// The bytes fed so far to a running MD5 hasher.
pub uninterp spec fn md5_fed(s: Md5Stream) -> Seq<u8>;

/// `Digest::new` of `md5::Md5`: a hasher that has been fed nothing.
#[verifier::external_body]
fn md5_start() -> (r: Md5Stream)
    ensures
        md5_fed(r) == Seq::<u8>::empty(),
{
    Md5Stream { hasher: <md5::Md5 as md5::Digest>::new() }
}

/// `Digest::update` of `md5::Md5`: the bytes are fed after those fed before.
#[verifier::external_body]
fn md5_feed(s: &mut Md5Stream, data: &[u8])
    ensures
        md5_fed(*final(s)) == md5_fed(*old(s)) + data@,
{
    <md5::Md5 as md5::Digest>::update(&mut s.hasher, data)
}

/// `Digest::finalize` of `md5::Md5`: the digest of every byte fed, the same
/// as `Digest::digest` of them all at once.
#[verifier::external_body]
fn md5_finish(s: Md5Stream) -> (r: Vec<u8>)
    ensures
        r@ == md5_digest(md5_fed(s)),
{
    <md5::Md5 as md5::Digest>::finalize(s.hasher).to_vec()
}

/// The running hasher of a download's digest.
pub enum RunningDigest {
    Sha512(Sha512Stream),
    Sha1(Sha1Stream),
    Md5(Md5Stream),
}

/// A digest being computed over a download as its chunks arrive, fed to the
/// hasher chunk by chunk.
pub struct HashState {
    algorithm: HashAlgorithm,
    running: RunningDigest,
}

impl HashState {
    /// The algorithm and the bytes fed so far.
    pub closed spec fn view_state(&self) -> (HashAlgorithm, Seq<u8>) {
        (
            self.algorithm,
            match self.running {
                RunningDigest::Sha512(s) => sha512_fed(s),
                RunningDigest::Sha1(s) => sha1_fed(s),
                RunningDigest::Md5(s) => md5_fed(s),
            },
        )
    }

    /// The hasher runs the digest the state names.
    pub closed spec fn wf(&self) -> bool {
        match self.running {
            RunningDigest::Sha512(_) => self.algorithm == HashAlgorithm::Sha512,
            RunningDigest::Sha1(_) => self.algorithm == HashAlgorithm::Sha1,
            RunningDigest::Md5(_) => self.algorithm == HashAlgorithm::Md5,
        }
    }

    /// A digest of nothing yet.
    pub fn new(algorithm: HashAlgorithm) -> (r: HashState)
        ensures
            r.wf(),
            r.view_state() == (algorithm, Seq::<u8>::empty()),
    {
        let running = match algorithm {
            HashAlgorithm::Sha512 => RunningDigest::Sha512(sha512_start()),
            HashAlgorithm::Sha1 => RunningDigest::Sha1(sha1_start()),
            HashAlgorithm::Md5 => RunningDigest::Md5(md5_start()),
        };
        HashState { algorithm, running }
    }

    /// Feeds more bytes to the digest.
    pub fn update(&mut self, bytes: &[u8])
        requires
            old(self).wf(),
        ensures
            final(self).wf(),
            final(self).view_state() == (old(self).view_state().0, old(self).view_state().1 + bytes@),
    {
        match &mut self.running {
            RunningDigest::Sha512(s) => sha512_feed(s, bytes),
            RunningDigest::Sha1(s) => sha1_feed(s, bytes),
            RunningDigest::Md5(s) => md5_feed(s, bytes),
        }
    }

    /// The lowercase hexadecimal digest of everything fed.
    pub fn finish(self) -> (r: String)
        requires
            self.wf(),
        ensures
            r@ == hex_of(digest_of(self.view_state().0, self.view_state().1)),
    {
        let digest = match self.running {
            RunningDigest::Sha512(s) => sha512_finish(s),
            RunningDigest::Sha1(s) => sha1_finish(s),
            RunningDigest::Md5(s) => md5_finish(s),
        };
        hex_encode(digest.as_slice())
    }

    /// Whether everything fed matches the published hash, whatever the case
    /// of its digits.
    pub fn matches(self, expected: &FileHash) -> (r: bool)
        requires
            self.wf(),
        ensures
            r == ascii_case_equal(hex_of(digest_of(self.view_state().0, self.view_state().1)), expected.value@),
    {
        let actual = self.finish();
        eq_ignore_ascii_case(actual.as_str(), expected.value.as_str())
    }
}

} // verus!
