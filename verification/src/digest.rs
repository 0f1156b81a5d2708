//! SHA-256 digests of texts and files, in hexadecimal notation.

use crate::text::{eq_ignore_case, same_ignoring_case};
use sha2::{Digest, Sha256};
use vstd::prelude::*;
use vstd::utf8::encode_utf8;

verus! {

broadcast use vstd::string::group_string_axioms;

/// The hasher of the `sha2` crate.
#[verifier::external_type_specification]
#[verifier::external_body]
pub struct ExSha256(sha2::Sha256);

/// The bytes that a hasher has been given so far, in order.
pub uninterp spec fn absorbed(hasher: sha2::Sha256) -> Seq<u8>;

/// The SHA-256 digest of a sequence of bytes.
pub uninterp spec fn sha256(bytes: Seq<u8>) -> Seq<u8>;

/// The number of bytes from which on there is no SHA-256 digest: the length in bits has to fit
/// in 64 bits.
pub const TOO_LONG: u64 = 0x2000_0000_0000_0000;

/// `Sha256::new`: a hasher that has been given nothing.
#[verifier::external_body]
fn new_hasher() -> (hasher: Sha256)
    ensures
        absorbed(hasher) == Seq::<u8>::empty(),
{
    Sha256::new()
}

/// `Digest::update`: gives the hasher the bytes, after all that it was given before.
#[verifier::external_body]
fn absorb(hasher: &mut Sha256, bytes: &[u8])
    ensures
        absorbed(*final(hasher)) == absorbed(*old(hasher)) + bytes@,
{
    hasher.update(bytes);
}

/// `Sha256::clone`: a hasher that has been given the same.
#[verifier::external_body]
fn copy_hasher(hasher: &Sha256) -> (copy: Sha256)
    ensures
        absorbed(copy) == absorbed(*hasher),
{
    hasher.clone()
}

/// `Digest::finalize`: the digest of all that the hasher was given, 32 bytes. It counts the bits
/// in 64 bits and overflows beyond them.
#[verifier::external_body]
fn finish(hasher: Sha256) -> (digest: Vec<u8>)
    requires
        absorbed(hasher).len() < TOO_LONG,
    ensures
        digest@ == sha256(absorbed(hasher)),
        digest@.len() == 32,
{
    hasher.finalize().to_vec()
}

/// The lower-case hexadecimal digit for a number below sixteen.
pub open spec fn hex_digit(value: nat) -> char {
    if value < 10 {
        (48 + value) as char
    } else {
        (87 + value) as char
    }
}

/// Bytes in lower-case hexadecimal notation, two digits each, the higher one first.
pub open spec fn hex_text(bytes: Seq<u8>) -> Seq<char> {
    Seq::new(
        2 * bytes.len(),
        |i: int|
            if i % 2 == 0 {
                hex_digit(bytes[i / 2] as nat / 16)
            } else {
                hex_digit(bytes[i / 2] as nat % 16)
            },
    )
}

/// `hex::encode`: the bytes in lower-case hexadecimal notation.
#[verifier::external_body]
fn hex_encode(bytes: &Vec<u8>) -> (text: String)
    ensures
        text@ == hex_text(bytes@),
{
    hex::encode(bytes)
}

/// The SHA-256 digest of bytes, in hexadecimal notation.
pub open spec fn digest_text(bytes: Seq<u8>) -> Seq<char> {
    hex_text(sha256(bytes))
}

/// Whether bytes have the digest that a manifest gives for them, in either case of letters.
pub open spec fn has_digest(bytes: Seq<u8>, expected: Seq<char>) -> bool {
    bytes.len() < TOO_LONG && same_ignoring_case(digest_text(bytes), expected)
}

/// The digest of the bytes of a file, taken while they pass by.
pub struct ContentHash {
    hasher: Sha256,
    length: u64,
}

impl View for ContentHash {
    type V = Seq<u8>;

    /// The bytes that have passed by.
    closed spec fn view(&self) -> Seq<u8> {
        absorbed(self.hasher)
    }
}

impl ContentHash {
    /// The count of the bytes is right, as far as it goes.
    pub closed spec fn wf(self) -> bool {
        self.length == self@.len() || (self.length == u64::MAX && self@.len() >= u64::MAX)
    }

    /// Before any byte.
    pub fn new() -> (r: Self)
        ensures
            r.wf(),
            r@ == Seq::<u8>::empty(),
    {
        ContentHash { hasher: new_hasher(), length: 0 }
    }

    /// Lets more bytes pass by.
    pub fn update(&mut self, bytes: &[u8])
        requires
            old(self).wf(),
        ensures
            final(self).wf(),
            final(self)@ == old(self)@ + bytes@,
    {
        absorb(&mut self.hasher, bytes);
        let more: u64 = bytes.len() as u64;
        self.length =
        if self.length > u64::MAX - more {
            u64::MAX
        } else {
            self.length + more
        };
    }

    /// Whether as many bytes have passed by. The count stops at the greatest number.
    pub fn has_length(&self, length: u64) -> (r: bool)
        requires
            self.wf(),
        ensures
            r == (self@.len() == length || (length == u64::MAX && self@.len() > length)),
    {
        self.length == length
    }

    /// Whether the bytes have the digest that a manifest gives for them.
    pub fn matches(&self, expected: &str) -> (r: bool)
        requires
            self.wf(),
        ensures
            r == has_digest(self@, expected@),
    {
        if self.length >= TOO_LONG {
            return false;
        }
        let digest = finish(copy_hasher(&self.hasher));
        eq_ignore_case(hex_encode(&digest).as_str(), expected)
    }
}

/// A text of a length that memory cannot hold, and that could have no digest.
pub const LONG_TEXT: u64 = 0x0400_0000_0000_0000;

proof fn lemma_utf8_length(chars: Seq<char>)
    ensures
        encode_utf8(chars).len() <= 4 * chars.len(),
    decreases chars.len(),
{
    if chars.len() > 0 {
        lemma_utf8_length(chars.drop_first());
    }
}

/// The digest of a text, in hexadecimal notation.
pub fn digest_of_text(text: &str) -> (digest: String)
    requires
        text@.len() < LONG_TEXT,
    ensures
        digest@ == digest_text(encode_utf8(text@)),
        digest@.len() == 64,
{
    let bytes = text.as_bytes();
    let mut hasher = new_hasher();
    absorb(&mut hasher, bytes);
    proof {
        assert(absorbed(hasher) =~= encode_utf8(text@));
        lemma_utf8_length(text@);
    }
    let digest = finish(hasher);
    hex_encode(&digest)
}

/// The value of a hexadecimal digit in lower case.
pub open spec fn hex_value(c: char) -> int {
    if '0' <= c && c <= '9' {
        c as u32 - 48
    } else {
        c as u32 - 87
    }
}

/// Bytes in hexadecimal notation are read back as the bytes: two digits for each, the first for its
/// sixteens, in lower case.
pub proof fn law_hexadecimal_is_read_back(bytes: Seq<u8>, i: int)
    requires
        0 <= i < bytes.len(),
    ensures
        hex_text(bytes).len() == 2 * bytes.len(),
        16 * hex_value(hex_text(bytes)[2 * i]) + hex_value(hex_text(bytes)[2 * i + 1]) == bytes[i],
        forall|j: int|
            0 <= j < 2 * bytes.len() ==> ('0' <= #[trigger] hex_text(bytes)[j] && hex_text(
                bytes,
            )[j] <= '9') || ('a' <= hex_text(bytes)[j] && hex_text(bytes)[j] <= 'f'),
{
    assert((2 * i) / 2 == i && (2 * i + 1) / 2 == i);
    assert forall|j: int| 0 <= j < 2 * bytes.len() implies ('0' <= #[trigger] hex_text(bytes)[j]
        && hex_text(bytes)[j] <= '9') || ('a' <= hex_text(bytes)[j] && hex_text(bytes)[j]
        <= 'f') by {
        let byte = bytes[j / 2];
        assert(byte as nat / 16 < 16 && byte as nat % 16 < 16);
    }
}

/// Bytes have a digest that is given for them exactly if it is their SHA-256 digest in hexadecimal
/// notation, in letters of either case.
pub proof fn law_digest_is_that_of_the_bytes(bytes: Seq<u8>, expected: Seq<char>)
    requires
        bytes.len() < 0x2000_0000_0000_0000,
    ensures
        has_digest(bytes, expected) <==> same_ignoring_case(hex_text(sha256(bytes)), expected),
        digest_text(bytes) == hex_text(sha256(bytes)),
        TOO_LONG == 0x2000_0000_0000_0000,
        bytes.len() >= 0x2000_0000_0000_0000 ==> !has_digest(bytes, expected),
        LONG_TEXT == 0x0400_0000_0000_0000,
{
}

} // verus!
