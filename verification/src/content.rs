//! Content addresses: the BLAKE3 digest of a byte source in lowercase hex,
//! computed by streaming the source through a hasher in bounded chunks.
use vstd::prelude::*;

use crate::engine::AudioError;
use crate::wav::ByteReader;

verus! {

/// Bytes read and absorbed per step: one mebibyte.
pub const HASH_CHUNK: usize = 1048576;

#[verifier::external_type_specification]
#[verifier::external_body]
pub struct ExHasher(blake3::Hasher);

/// The BLAKE3 hash of `input`, as the 64 lowercase hex digits of
/// `blake3::Hash::to_hex`.
pub uninterp spec fn blake3_hex(input: Seq<u8>) -> Seq<char>;

/// The bytes a `blake3::Hasher` has absorbed, in order.
pub uninterp spec fn hasher_input(h: blake3::Hasher) -> Seq<u8>;

/// `blake3::Hasher::new`: a hasher for the regular hash function that has
/// absorbed nothing.
#[verifier::external_body]
fn new_hasher() -> (h: blake3::Hasher)
    ensures
        hasher_input(h) == Seq::<u8>::empty(),
{
    blake3::Hasher::new()
}

/// `blake3::Hasher::update`: absorbs `data` after what the hasher already
/// holds. Its only panic is for a hasher given an input offset, which
/// `new_hasher` never makes.
#[verifier::external_body]
fn absorb(h: &mut blake3::Hasher, data: &[u8])
    ensures
        hasher_input(*final(h)) == hasher_input(*old(h)) + data@,
{
    h.update(data);
}

/// `blake3::Hasher::finalize`, then `Hash::to_hex`: the hash of everything
/// absorbed, as 64 hex digits. The crate documents that hashing in pieces
/// gives the hash of the pieces joined, so this is `blake3_hex` of the input.
#[verifier::external_body]
fn digest_hex(h: &blake3::Hasher) -> (r: String)
    ensures
        r@ == blake3_hex(hasher_input(*h)),
        r@.len() == 64,
{
    h.finalize().to_hex().to_string()
}

/// The content address of everything `reader` serves: its bytes streamed
/// through BLAKE3 `HASH_CHUNK` at a time, the same digest hashing the whole
/// blob at once gives. A failed read is passed on.
pub fn content_hash<R: ByteReader>(reader: &R) -> (r: Result<String, AudioError>)
    ensures
        r matches Ok(h) ==> h@ == blake3_hex(reader.blob()) && h@.len() == 64,
        r matches Err(e) ==> e is Io,
        reader.serves_every_range() ==> r is Ok,
{
    let total = reader.total_len();
    let ghost blob = reader.blob();
    let mut h = new_hasher();
    let mut offset: u64 = 0;
    proof {
        assert(blob.subrange(0, 0) =~= Seq::<u8>::empty());
    }
    while offset < total
        invariant
            offset <= total,
            total as int == blob.len(),
            blob == reader.blob(),
            hasher_input(h) == blob.subrange(0, offset as int),
        decreases total - offset,
    {
        let remaining = total - offset;
        let len: usize = if remaining < HASH_CHUNK as u64 {
            remaining as usize
        } else {
            HASH_CHUNK
        };
        let chunk = match reader.read_exact_at(offset, len) {
            Ok(c) => c,
            Err(e) => return Err(e),
        };
        absorb(&mut h, chunk.as_slice());
        proof {
            assert(blob.subrange(0, offset as int) + blob.subrange(offset as int, offset + len)
                =~= blob.subrange(0, offset + len));
        }
        offset = offset + len as u64;
    }
    proof {
        assert(blob.subrange(0, total as int) =~= blob);
    }
    Ok(digest_hex(&h))
}

} // verus!
