//! SHA-256 hashing of leaves and of pairs of child hashes.
//!
//! The hash itself is computed by the `crypto` crate. This module says what
//! is taken on trust about that crate and builds the two hash functions of
//! the tree on top of it.

use crypto::digest::Digest;
use crypto::sha2::Sha256;
use vstd::prelude::*;
use vstd::utf8::*;

verus! {

#[verifier::external_type_specification]
#[verifier::external_body]
pub struct ExSha256(Sha256);

/// The SHA-256 digest of `message`, written as lowercase hexadecimal.
pub uninterp spec fn sha256_hex(message: Seq<u8>) -> Seq<char>;

/// The bytes that `hasher` has been fed since it was made.
pub uninterp spec fn absorbed(hasher: Sha256) -> Seq<u8>;

/// Whether `hasher` has already produced its digest, after which it takes no
/// more input.
pub uninterp spec fn finished(hasher: Sha256) -> bool;

/// The longest message, in bytes, that one hasher accepts: its length in bits
/// has to fit in 64 bits.
pub const MAX_MESSAGE_BYTES: u64 = 0x1fff_ffff_ffff_ffff;

/// Number of characters in a digest.
pub const DIGEST_LEN: usize = 64;

pub open spec fn is_lower_hex(c: char) -> bool {
    ('0' <= c && c <= '9') || ('a' <= c && c <= 'f')
}

/// The shape of every digest: 64 lowercase hexadecimal characters.
pub open spec fn is_digest(s: Seq<char>) -> bool {
    &&& s.len() == DIGEST_LEN
    &&& forall|i: int| 0 <= i < s.len() ==> is_lower_hex(#[trigger] s[i])
}

/// The hash of a leaf that holds `data`.
pub open spec fn leaf_hash(data: Seq<char>) -> Seq<char> {
    sha256_hex(encode_utf8(data))
}

/// The hash of a branch whose children have the hashes `left` and `right`.
pub open spec fn node_hash(left: Seq<char>, right: Seq<char>) -> Seq<char> {
    sha256_hex(encode_utf8(left) + encode_utf8(right))
}

/// Whether a string is short enough to be hashed as a leaf.
pub open spec fn hashable(data: Seq<char>) -> bool {
    encode_utf8(data).len() <= MAX_MESSAGE_BYTES
}

/// Whether two strings are short enough to be hashed together as a branch.
pub open spec fn hashable_pair(left: Seq<char>, right: Seq<char>) -> bool {
    encode_utf8(left).len() + encode_utf8(right).len() <= MAX_MESSAGE_BYTES
}

/// Calls `Sha256::new` of the `crypto` crate. Trusted: the new hasher has
/// been fed nothing and has produced no digest.
#[verifier::external_body]
fn new_hasher() -> (hasher: Sha256)
    ensures
        absorbed(hasher) == Seq::<u8>::empty(),
        !finished(hasher),
{
    Sha256::new()
}

/// Calls `Digest::input_str` of the `crypto` crate, which feeds the UTF-8
/// bytes of `text` to the hasher. Trusted: the bytes are appended to what the
/// hasher has absorbed. The call panics on a finished hasher and when the
/// message would grow past `MAX_MESSAGE_BYTES`, which `requires` leaves out.
#[verifier::external_body]
fn feed_str(hasher: &mut Sha256, text: &str)
    requires
        !finished(*old(hasher)),
        absorbed(*old(hasher)).len() + encode_utf8(text@).len() <= MAX_MESSAGE_BYTES,
    ensures
        absorbed(*final(hasher)) == absorbed(*old(hasher)) + encode_utf8(text@),
        !finished(*final(hasher)),
{
    hasher.input_str(text)
}

/// Calls `Digest::result_str` of the `crypto` crate on a hasher that is
/// given up by the caller. Trusted: the result is the SHA-256 digest of the
/// absorbed bytes, as 64 lowercase hexadecimal characters.
#[verifier::external_body]
fn digest_hex(hasher: Sha256) -> (digest: String)
    ensures
        digest@ == sha256_hex(absorbed(hasher)),
        is_digest(digest@),
{
    let mut hasher = hasher;
    hasher.result_str()
}

/// A digest is plain ASCII, so it takes one byte per character.
pub proof fn lemma_digest_bytes(s: Seq<char>)
    requires
        is_digest(s),
    ensures
        encode_utf8(s).len() == DIGEST_LEN,
        hashable(s),
        hashable_pair(s, s),
{
    assert(is_ascii_chars(s)) by {
        assert forall|i: int| 0 <= i < s.len() implies '\0' <= #[trigger] s[i] <= '\u{7f}' by {
            assert(is_lower_hex(s[i]));
        }
    }
    is_ascii_chars_encode_utf8(s);
}

/// Whether `text` is short enough to be hashed as a leaf.
pub fn is_hashable(text: &str) -> (fits: bool)
    ensures
        fits == hashable(text@),
{
    let bytes = text.as_bytes();
    bytes.len() as u64 <= MAX_MESSAGE_BYTES
}

/// Hashes the data of a leaf.
pub fn hash_leaf(leaf: &str) -> (digest: String)
    requires
        hashable(leaf@),
    ensures
        digest@ == leaf_hash(leaf@),
        is_digest(digest@),
{
    let mut hasher = new_hasher();
    feed_str(&mut hasher, leaf);
    assert(absorbed(hasher) =~= encode_utf8(leaf@));
    digest_hex(hasher)
}

/// Hashes the hashes of two children, left then right, with nothing between.
pub fn hash_node(left: &str, right: &str) -> (digest: String)
    requires
        hashable_pair(left@, right@),
    ensures
        digest@ == node_hash(left@, right@),
        is_digest(digest@),
{
    let mut hasher = new_hasher();
    feed_str(&mut hasher, left);
    feed_str(&mut hasher, right);
    assert(absorbed(hasher) =~= encode_utf8(left@) + encode_utf8(right@));
    digest_hex(hasher)
}

} // verus!
