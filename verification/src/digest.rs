use vstd::prelude::*;

verus! {

/// The 32-byte SHA-256 digest of a string's UTF-8 encoding, as a function of
/// its characters. Stating the algorithm itself would take pages; the name
/// pins down only that equal character sequences give equal digests.
pub uninterp spec fn sha256_of(s: Seq<char>) -> Seq<u8>;

/// Relies on sha2::Sha256 through the Digest trait: the digest is 32 bytes
/// long and is a pure function of the input bytes, hence of the string's
/// characters.
#[verifier::external_body]
fn sha256(s: &str) -> (r: Vec<u8>)
    ensures
        r@ == sha256_of(s@),
        r@.len() == 32,
{
    <sha2::Sha256 as sha2::Digest>::digest(s.as_bytes()).to_vec()
}

/// A byte with any ASCII uppercase letter replaced by its lowercase form;
/// every other byte is unchanged.
pub open spec fn ascii_lower_byte(b: u8) -> u8 {
    if 65 <= b && b <= 90 {
        (b + 32) as u8
    } else {
        b
    }
}

/// A byte sequence rendered as lowercase, byte for byte.
pub open spec fn lower_bytes(s: Seq<u8>) -> Seq<u8> {
    s.map_values(|b: u8| ascii_lower_byte(b))
}

/// The truncated digest of a sample: the first `d` bytes of its SHA-256
/// digest, rendered as lowercase.
pub open spec fn digest_spec(s: Seq<char>, d: int) -> Seq<u8> {
    lower_bytes(sha256_of(s).take(d))
}

/// Replaces each ASCII uppercase letter of the input by its lowercase form.
pub fn lower_ascii_bytes(bytes: &Vec<u8>) -> (r: Vec<u8>)
    ensures
        r@ == lower_bytes(bytes@),
{
    let mut r: Vec<u8> = Vec::new();
    let mut i: usize = 0;
    while i < bytes.len()
        invariant
            i <= bytes@.len(),
            r@ == lower_bytes(bytes@.take(i as int)),
        decreases bytes@.len() - i,
    {
        let b = bytes[i];
        let lb = if 65 <= b && b <= 90 {
            b + 32
        } else {
            b
        };
        r.push(lb);
        proof {
            assert(r@ =~= lower_bytes(bytes@.take(i + 1 as int)));
        }
        i = i + 1;
    }
    proof {
        assert(bytes@.take(bytes@.len() as int) =~= bytes@);
        assert(r@ =~= lower_bytes(bytes@));
    }
    r
}

/// The digest truncator on one sample: the first `d` bytes of the sample's
/// SHA-256 digest, rendered as lowercase. Deterministic: the result is a
/// function of the sample's characters alone.
pub fn truncated_digest(s: &str, d: usize) -> (r: Vec<u8>)
    requires
        d <= 32,
    ensures
        r@ == digest_spec(s@, d as int),
        r@.len() == d,
{
    let h = sha256(s);
    let mut prefix: Vec<u8> = Vec::new();
    let mut i: usize = 0;
    while i < d
        invariant
            i <= d,
            d <= 32,
            h@.len() == 32,
            prefix@ == h@.take(i as int),
        decreases d - i,
    {
        let b = h[i];
        prefix.push(b);
        proof {
            assert(prefix@ =~= h@.take(i + 1 as int));
        }
        i = i + 1;
    }
    let r = lower_ascii_bytes(&prefix);
    r
}

/// The digest truncator on a whole batch: one truncated digest for each
/// sample, in the samples' order.
pub fn digest_batch(samples: &Vec<String>, d: usize) -> (r: Vec<Vec<u8>>)
    requires
        d <= 32,
    ensures
        r@.len() == samples@.len(),
        forall|i: int| 0 <= i < r@.len() ==> (#[trigger] r@[i])@ == digest_spec(samples@[i]@, d as int),
        forall|i: int| 0 <= i < r@.len() ==> (#[trigger] r@[i])@.len() == d,
{
    let mut r: Vec<Vec<u8>> = Vec::new();
    let mut i: usize = 0;
    while i < samples.len()
        invariant
            i <= samples@.len(),
            r@.len() == i,
            d <= 32,
            forall|k: int| 0 <= k < r@.len() ==> (#[trigger] r@[k])@ == digest_spec(samples@[k]@, d as int),
            forall|k: int| 0 <= k < r@.len() ==> (#[trigger] r@[k])@.len() == d,
        decreases samples@.len() - i,
    {
        let dg = truncated_digest(samples[i].as_str(), d);
        r.push(dg);
        i = i + 1;
    }
    r
}

/// Law: the digest truncator is deterministic — equal samples have equal
/// truncated digests.
pub proof fn lemma_digest_deterministic(s1: Seq<char>, s2: Seq<char>, d: int)
    requires
        s1 == s2,
    ensures
        digest_spec(s1, d) == digest_spec(s2, d),
{
}

} // verus!
