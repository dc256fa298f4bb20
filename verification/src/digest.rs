//! SHA-256 digests and the byte encodings that are digested.

use sha2::{Digest, Sha256};
use vstd::prelude::*;
use vstd::string::*;
use vstd::utf8::*;

verus! {

/// The SHA-256 digest of some bytes.
pub uninterp spec fn sha256_of(bytes: Seq<u8>) -> Seq<u8>;

/// `sha2::Sha256::digest` gives the SHA-256 digest of its argument, which is a
/// function of the bytes alone and 32 bytes long.
#[verifier::external_body]
pub(crate) fn sha256(bytes: &Vec<u8>) -> (digest: Vec<u8>)
    ensures
        digest@ == sha256_of(bytes@),
        digest@.len() == 32,
{
    Sha256::digest(bytes).to_vec()
}

/// The hexadecimal digit of a number below sixteen.
pub open spec fn hex_digit(number: nat) -> char {
    if number < 10 {
        (48 + number) as char
    } else {
        (87 + number) as char
    }
}

/// Bytes written in lower-case hexadecimal, two digits each.
pub open spec fn hex_of(bytes: Seq<u8>) -> Seq<char>
    decreases bytes.len(),
{
    if bytes.len() == 0 {
        Seq::empty()
    } else {
        hex_of(bytes.drop_last()).push(hex_digit((bytes.last() / 16) as nat)).push(
            hex_digit((bytes.last() % 16) as nat),
        )
    }
}

/// The hexadecimal digit of a number below sixteen.
fn hex_char(number: u8) -> (digit: char)
    requires
        number < 16,
    ensures
        digit == hex_digit(number as nat),
{
    if number < 10 {
        (48 + number) as char
    } else {
        (87 + number) as char
    }
}

/// Bytes written in lower-case hexadecimal.
pub fn hex(bytes: &Vec<u8>) -> (text: String)
    ensures
        text@ == hex_of(bytes@),
{
    let mut text = String::new();
    let mut i: usize = 0;
    assert(bytes@.take(0) =~= Seq::<u8>::empty());
    while i < bytes.len()
        invariant
            i <= bytes@.len(),
            text@ == hex_of(bytes@.take(i as int)),
        decreases bytes@.len() - i,
    {
        proof {
            assert(bytes@.take(i + 1).drop_last() =~= bytes@.take(i as int));
            assert(bytes@.take(i + 1).last() == bytes@[i as int]);
        }
        let byte: u8 = bytes[i];
        text.push(hex_char(byte / 16));
        text.push(hex_char(byte % 16));
        i += 1;
    }
    assert(bytes@.take(i as int) =~= bytes@);
    text
}

/// The digest of some bytes, in lower-case hexadecimal.
pub open spec fn sha256_text(bytes: Seq<u8>) -> Seq<char> {
    hex_of(sha256_of(bytes))
}

/// The digest of some bytes, in lower-case hexadecimal.
pub fn sha256_hex(bytes: &Vec<u8>) -> (text: String)
    ensures
        text@ == sha256_text(bytes@),
{
    hex(&sha256(bytes))
}

/// A number as so many bytes, the least significant first.
pub open spec fn little_endian(number: nat, bytes: nat) -> Seq<u8>
    decreases bytes,
{
    if bytes == 0 {
        Seq::empty()
    } else {
        seq![(number % 256) as u8] + little_endian(number / 256, (bytes - 1) as nat)
    }
}

/// A number as so many bytes, the most significant first.
pub open spec fn big_endian(number: nat, bytes: nat) -> Seq<u8>
    decreases bytes,
{
    if bytes == 0 {
        Seq::empty()
    } else {
        big_endian(number / 256, (bytes - 1) as nat).push((number % 256) as u8)
    }
}

/// Writes a number as so many bytes, the least significant first.
pub fn write_little_endian(output: &mut Vec<u8>, number: u64, bytes: usize)
    ensures
        final(output)@ == old(output)@ + little_endian(number as nat, bytes as nat),
    decreases bytes,
{
    let ghost before = output@;
    if bytes == 0 {
        assert(output@ =~= before + Seq::<u8>::empty());
    } else {
        output.push((number % 256) as u8);
        write_little_endian(output, number / 256, bytes - 1);
        assert(output@ =~= before + little_endian(number as nat, bytes as nat));
    }
}

/// Writes a number as so many bytes, the most significant first.
pub fn write_big_endian(output: &mut Vec<u8>, number: u64, bytes: usize)
    ensures
        final(output)@ == old(output)@ + big_endian(number as nat, bytes as nat),
    decreases bytes,
{
    let ghost before = output@;
    if bytes == 0 {
        assert(output@ =~= before + Seq::<u8>::empty());
    } else {
        write_big_endian(output, number / 256, bytes - 1);
        output.push((number % 256) as u8);
        assert(output@ =~= before + big_endian(number as nat, bytes as nat));
    }
}

/// Appends bytes.
pub fn write_bytes(output: &mut Vec<u8>, bytes: &Vec<u8>)
    ensures
        final(output)@ == old(output)@ + bytes@,
{
    let ghost before = output@;
    let mut i: usize = 0;
    assert(before =~= before + bytes@.take(0));
    while i < bytes.len()
        invariant
            i <= bytes@.len(),
            output@ == before + bytes@.take(i as int),
        decreases bytes@.len() - i,
    {
        output.push(bytes[i]);
        assert(bytes@.take(i + 1) =~= bytes@.take(i as int).push(bytes@[i as int]));
        assert(output@ =~= before + bytes@.take(i + 1));
        i += 1;
    }
    assert(bytes@.take(i as int) =~= bytes@);
}

/// A number has as many bytes as asked for.
pub proof fn lemma_little_endian_len(number: nat, bytes: nat)
    ensures
        little_endian(number, bytes).len() == bytes,
    decreases bytes,
{
    if bytes > 0 {
        lemma_little_endian_len(number / 256, (bytes - 1) as nat);
    }
}

/// Numbers that fit are told apart by their bytes.
pub proof fn lemma_little_endian_injective(left: nat, right: nat, bytes: nat, limit: nat)
    requires
        left < limit,
        right < limit,
        limit <= power_of_256(bytes),
        little_endian(left, bytes) == little_endian(right, bytes),
    ensures
        left == right,
    decreases bytes,
{
    if bytes > 0 {
        let l = little_endian(left, bytes);
        let r = little_endian(right, bytes);
        assert(l[0] == (left % 256) as u8);
        assert(r[0] == (right % 256) as u8);
        assert(left % 256 == right % 256);
        assert(l.skip(1) =~= little_endian(left / 256, (bytes - 1) as nat));
        assert(r.skip(1) =~= little_endian(right / 256, (bytes - 1) as nat));
        let less = power_of_256((bytes - 1) as nat);
        assert(left / 256 < less && right / 256 < less);
        lemma_little_endian_injective(left / 256, right / 256, (bytes - 1) as nat, less);
    }
}

/// How many numbers so many bytes can write.
pub open spec fn power_of_256(bytes: nat) -> nat
    decreases bytes,
{
    if bytes == 0 {
        1
    } else {
        256 * power_of_256((bytes - 1) as nat)
    }
}

/// The bytes that encode a text.
pub fn text_bytes(text: &str) -> (bytes: Vec<u8>)
    ensures
        bytes@ == encode_utf8(text@),
{
    let slice = text.as_bytes();
    let mut bytes: Vec<u8> = Vec::new();
    let mut i: usize = 0;
    while i < slice.len()
        invariant
            i <= slice@.len(),
            bytes@ == slice@.take(i as int),
        decreases slice@.len() - i,
    {
        bytes.push(slice[i]);
        assert(slice@.take(i + 1) =~= slice@.take(i as int).push(slice@[i as int]));
        i += 1;
    }
    assert(slice@.take(i as int) =~= slice@);
    bytes
}

/// A number has as many bytes as asked for.
pub proof fn lemma_big_endian_len(number: nat, bytes: nat)
    ensures
        big_endian(number, bytes).len() == bytes,
    decreases bytes,
{
    if bytes > 0 {
        lemma_big_endian_len(number / 256, (bytes - 1) as nat);
    }
}

/// Numbers that fit are told apart by their bytes.
pub proof fn lemma_big_endian_injective(left: nat, right: nat, bytes: nat)
    requires
        left < power_of_256(bytes),
        right < power_of_256(bytes),
        big_endian(left, bytes) == big_endian(right, bytes),
    ensures
        left == right,
    decreases bytes,
{
    if bytes > 0 {
        let l = big_endian(left, bytes);
        let r = big_endian(right, bytes);
        lemma_big_endian_len(left / 256, (bytes - 1) as nat);
        lemma_big_endian_len(right / 256, (bytes - 1) as nat);
        assert(l.last() == (left % 256) as u8);
        assert(r.last() == (right % 256) as u8);
        assert(left % 256 == right % 256);
        assert(l.drop_last() =~= big_endian(left / 256, (bytes - 1) as nat));
        assert(r.drop_last() =~= big_endian(right / 256, (bytes - 1) as nat));
        let less = power_of_256((bytes - 1) as nat);
        assert(left / 256 < less && right / 256 < less);
        lemma_big_endian_injective(left / 256, right / 256, (bytes - 1) as nat);
    }
}

} // verus!
