use vstd::prelude::*;

verus! {

#[verifier::external_type_specification]
#[verifier::external_body]
pub struct ExBlake3Hasher(blake3::Hasher);

/// A lowercase hexadecimal digit, as the digest encoding emits them.
pub open spec fn is_hex_digit(c: char) -> bool {
    ('0' <= c && c <= '9') || ('a' <= c && c <= 'f')
}

/// The bytes a hasher has been fed so far.
pub uninterp spec fn hasher_fed(h: blake3::Hasher) -> Seq<u8>;

/// The lowercase hexadecimal BLAKE3 digest of a byte sequence.  The digest
/// depends on the bytes alone.
pub uninterp spec fn blake3_hex_of(bytes: Seq<u8>) -> Seq<char>;

/// Relies on blake3::Hasher::new: a fresh hasher has been fed nothing.
#[verifier::external_body]
fn hasher_new() -> (h: blake3::Hasher)
    ensures
        hasher_fed(h) == Seq::<u8>::empty(),
{
    blake3::Hasher::new()
}

/// Relies on blake3::Hasher::update: appends the chunk to the fed input.
#[verifier::external_body]
fn hasher_update(h: &mut blake3::Hasher, chunk: &[u8])
    ensures
        hasher_fed(*final(h)) == hasher_fed(*old(h)) + chunk@,
{
    h.update(chunk);
}

/// Relies on blake3::Hasher::finalize and blake3::Hash::to_hex: the 32-byte
/// BLAKE3 digest of the fed input, encoded as 64 characters drawn from the
/// lowercase hexadecimal table.
#[verifier::external_body]
fn hasher_finalize_hex(h: &blake3::Hasher) -> (r: String)
    ensures
        r@ == blake3_hex_of(hasher_fed(*h)),
        r@.len() == 64,
        forall|k: int| 0 <= k < r@.len() ==> is_hex_digit(#[trigger] r@[k]),
{
    h.finalize().to_hex().as_str().to_string()
}

/// A streaming content-identity hasher: fed chunk by chunk, it yields the
/// digest of everything fed, so a caller can hash a file without holding it
/// in memory.
pub struct ContentHasher {
    inner: blake3::Hasher,
}

impl ContentHasher {
    /// The bytes fed so far.
    pub closed spec fn fed(&self) -> Seq<u8> {
        hasher_fed(self.inner)
    }

    /// A fresh hasher, fed nothing.
    pub fn new() -> (r: ContentHasher)
        ensures
            r.fed() == Seq::<u8>::empty(),
    {
        ContentHasher { inner: hasher_new() }
    }

    /// Feeds one chunk.
    pub fn update(&mut self, chunk: &[u8])
        ensures
            final(self).fed() == old(self).fed() + chunk@,
    {
        hasher_update(&mut self.inner, chunk);
    }

    /// The lowercase hex digest of everything fed so far.
    pub fn finalize_hex(&self) -> (r: String)
        ensures
            r@ == blake3_hex_of(self.fed()),
            r@.len() == 64,
            forall|k: int| 0 <= k < r@.len() ==> is_hex_digit(#[trigger] r@[k]),
    {
        hasher_finalize_hex(&self.inner)
    }
}

/// The content identity of a byte sequence held in memory: its lowercase
/// hex BLAKE3 digest.
pub fn blake3_hex(data: &[u8]) -> (r: String)
    ensures
        r@ == blake3_hex_of(data@),
        r@.len() == 64,
        forall|k: int| 0 <= k < r@.len() ==> is_hex_digit(#[trigger] r@[k]),
{
    let mut h = ContentHasher::new();
    h.update(data);
    proof {
        assert(Seq::<u8>::empty() + data@ =~= data@);
    }
    h.finalize_hex()
}

/// Hash stability: the digest is a function of the content alone, so two
/// digests of the same bytes are always equal.
pub proof fn lemma_digest_stable(c: Seq<u8>, r1: Seq<char>, r2: Seq<char>)
    requires
        r1 == blake3_hex_of(c),
        r2 == blake3_hex_of(c),
    ensures
        r1 == r2,
{
}

} // verus!
