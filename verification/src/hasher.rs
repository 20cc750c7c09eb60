//! Content fingerprints: BLAKE3 digests, written as lower-case hexadecimal.

use vstd::prelude::*;
use vstd::slice::slice_subrange;

verus! {

/// Number of bytes fed to the digest at a time.
pub const CHUNK_SIZE: usize = 128 * 1024;

/// `blake3::Hasher`, the incremental state of the digest. It is opaque here:
/// what the library knows of a state is said through `hasher_input` and
/// `hasher_offset`.
#[verifier::external_type_specification]
#[verifier::external_body]
pub struct ExHasher(blake3::Hasher);

/// The bytes that a BLAKE3 state has been fed so far, in the order they came.
pub uninterp spec fn hasher_input(state: blake3::Hasher) -> Seq<u8>;

/// The input offset that a BLAKE3 state starts from. It is zero unless it was
/// moved through the crate's low-level interface, which this library never uses.
pub uninterp spec fn hasher_offset(state: blake3::Hasher) -> nat;

/// The 32-byte BLAKE3 digest of a byte string.
pub uninterp spec fn blake3_digest(input: Seq<u8>) -> Seq<u8>;

/// The sixteen lower-case hexadecimal digits, by value.
pub open spec fn hex_digits() -> Seq<char> {
    seq!['0', '1', '2', '3', '4', '5', '6', '7', '8', '9', 'a', 'b', 'c', 'd', 'e', 'f']
}

/// Lower-case hexadecimal of a byte string: two digits per byte, high nibble first.
pub open spec fn lower_hex(bytes: Seq<u8>) -> Seq<char> {
    Seq::new(
        2 * bytes.len(),
        |i: int|
            if i % 2 == 0 {
                hex_digits()[(bytes[i / 2] >> 4) as int]
            } else {
                hex_digits()[(bytes[i / 2] & 0xf) as int]
            },
    )
}

/// The fingerprint of a file's content: its BLAKE3 digest in lower-case hexadecimal.
pub open spec fn content_hash(content: Seq<u8>) -> Seq<char> {
    lower_hex(blake3_digest(content))
}

/// `blake3::Hasher::new`. Trusted: the fresh state has been fed nothing and
/// starts at offset zero.
#[verifier::external_body]
fn hasher_new() -> (state: blake3::Hasher)
    ensures
        hasher_input(state) == Seq::<u8>::empty(),
        hasher_offset(state) == 0,
{
    blake3::Hasher::new()
}

/// `blake3::Hasher::update`. Trusted: on a state at offset zero the call
/// returns, appends `input` to what the state has been fed, and leaves the
/// offset alone.
#[verifier::external_body]
fn hasher_update(state: &mut blake3::Hasher, input: &[u8])
    requires
        hasher_offset(*old(state)) == 0,
    ensures
        hasher_input(*final(state)) == hasher_input(*old(state)) + input@,
        hasher_offset(*final(state)) == 0,
    no_unwind
{
    state.update(input);
}

/// `blake3::Hasher::finalize`. Trusted: on a state at offset zero the call
/// returns the BLAKE3 digest of everything the state has been fed.
#[verifier::external_body]
fn hasher_finalize(state: &blake3::Hasher) -> (digest: [u8; 32])
    requires
        hasher_offset(*state) == 0,
    ensures
        digest@ == blake3_digest(hasher_input(*state)),
{
    *state.finalize().as_bytes()
}

/// `blake3::Hash::to_hex`. Trusted: the result spells each byte as two
/// lower-case hexadecimal digits, high nibble first.
#[verifier::external_body]
fn digest_to_hex(digest: &[u8; 32]) -> (hex: String)
    ensures
        hex@ == lower_hex(digest@),
{
    blake3::Hash::from_bytes(*digest).to_hex().as_str().to_owned()
}

/// A streaming content hasher: feed it a file chunk by chunk, then ask for
/// the fingerprint of everything it was fed.
pub struct ContentHasher {
    state: blake3::Hasher,
}

impl ContentHasher {
    #[verifier::type_invariant]
    spec fn starts_at_zero(self) -> bool {
        hasher_offset(self.state) == 0
    }

    /// The bytes fed so far.
    pub closed spec fn absorbed(&self) -> Seq<u8> {
        hasher_input(self.state)
    }

    /// A hasher that has been fed nothing.
    pub fn new() -> (hasher: Self)
        ensures
            hasher.absorbed() == Seq::<u8>::empty(),
    {
        ContentHasher { state: hasher_new() }
    }

    /// Feeds one chunk.
    pub fn update(&mut self, chunk: &[u8])
        ensures
            final(self).absorbed() == old(self).absorbed() + chunk@,
    {
        proof {
            use_type_invariant(&*self);
        }
        hasher_update(&mut self.state, chunk);
    }

    /// Takes the outcome of one read from a stream: `count` bytes at the front
    /// of `buffer`. Says whether the stream goes on; a read of nothing ends it.
    pub fn feed(&mut self, buffer: &[u8], count: usize) -> (more: bool)
        requires
            count <= buffer@.len(),
        ensures
            more == (count != 0),
            final(self).absorbed() == old(self).absorbed() + buffer@.subrange(0, count as int),
    {
        if count == 0 {
            return false;
        }
        self.update(slice_subrange(buffer, 0, count));
        true
    }

    /// The fingerprint of everything fed so far.
    pub fn finalize(&self) -> (hash: String)
        ensures
            hash@ == content_hash(self.absorbed()),
    {
        proof {
            use_type_invariant(self);
        }
        let digest = hasher_finalize(&self.state);
        digest_to_hex(&digest)
    }
}

/// The fingerprint of a whole content held in memory, fed to the digest in
/// chunks of `CHUNK_SIZE` bytes.
pub fn hash_file_content(content: &[u8]) -> (hash: String)
    ensures
        hash@ == content_hash(content@),
{
    let mut hasher = ContentHasher::new();
    let mut offset: usize = 0;
    while offset < content.len()
        invariant
            offset <= content@.len(),
            hasher.absorbed() == content@.subrange(0, offset as int),
        decreases content@.len() - offset,
    {
        let remaining: usize = content.len() - offset;
        let count: usize = if remaining < CHUNK_SIZE {
            remaining
        } else {
            CHUNK_SIZE
        };
        hasher.update(slice_subrange(content, offset, offset + count));
        offset = offset + count;
    }
    assert(content@.subrange(0, offset as int) =~= content@);
    hasher.finalize()
}

} // verus!
