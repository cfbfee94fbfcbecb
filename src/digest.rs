//! Digest keys: the uppercase hexadecimal form of a file's SHA-256 digest.
use vstd::prelude::*;

verus! {

/// The SHA-256 digest of `data`.
pub uninterp spec fn sha256_of(data: Seq<u8>) -> Seq<u8>;

/// The ASCII code of the uppercase hexadecimal digit for `n` (`n < 16`).
pub open spec fn hex_digit(n: u8) -> u8 {
    if n < 10 {
        (48 + n) as u8
    } else {
        (55 + n) as u8
    }
}

/// Two uppercase hexadecimal digits (as ASCII bytes) per byte of `b`, high
/// nibble first.
pub open spec fn upper_hex(b: Seq<u8>) -> Seq<u8>
    decreases b.len(),
{
    if b.len() == 0 {
        Seq::empty()
    } else {
        upper_hex(b.drop_last()) + seq![hex_digit(b.last() / 16), hex_digit(b.last() % 16)]
    }
}

/// The index key of a file whose contents are `data`.
pub open spec fn digest_key(data: Seq<u8>) -> Seq<u8> {
    upper_hex(sha256_of(data))
}

/// Relies on `sha2::Sha256::digest`: the 32-byte SHA-256 digest of the input.
#[verifier::external_body]
fn sha256(data: &[u8]) -> (r: Vec<u8>)
    ensures
        r@ == sha256_of(data@),
        r@.len() == 32,
{
    <sha2::Sha256 as sha2::Digest>::digest(data).to_vec()
}

/// Relies on `hex::encode_upper`: two characters of `0123456789ABCDEF` per
/// byte, high nibble first; the characters are ASCII, so the string's bytes
/// are their codes.
#[verifier::external_body]
fn encode_upper_hex(data: &[u8]) -> (r: Vec<u8>)
    ensures
        r@ == upper_hex(data@),
{
    hex::encode_upper(data).into_bytes()
}

/// The index key of a file's contents: the uppercase hexadecimal SHA-256
/// digest, as ASCII bytes.
pub fn content_key(data: &[u8]) -> (r: Vec<u8>)
    ensures
        r@ == digest_key(data@),
        r@.len() == 64,
{
    let d = sha256(data);
    let r = encode_upper_hex(d.as_slice());
    proof {
        lemma_upper_hex_len(d@);
    }
    r
}

/// The hexadecimal form has two digits per byte.
pub proof fn lemma_upper_hex_len(b: Seq<u8>)
    ensures
        upper_hex(b).len() == 2 * b.len(),
    decreases b.len(),
{
    if b.len() > 0 {
        lemma_upper_hex_len(b.drop_last());
    }
}

proof fn lemma_hex_digit_injective(x: u8, y: u8)
    requires
        x < 16,
        y < 16,
        hex_digit(x) == hex_digit(y),
    ensures
        x == y,
{
}

/// Distinct byte strings have distinct hexadecimal forms.
pub proof fn lemma_upper_hex_injective(a: Seq<u8>, b: Seq<u8>)
    requires
        upper_hex(a) == upper_hex(b),
    ensures
        a == b,
    decreases a.len(),
{
    lemma_upper_hex_len(a);
    lemma_upper_hex_len(b);
    if a.len() > 0 {
        let ha = upper_hex(a);
        let hb = upper_hex(b);
        let n = ha.len() as int;
        let (x, y) = (a.last(), b.last());
        assert(ha[n - 2] == hex_digit(x / 16) && ha[n - 1] == hex_digit(x % 16));
        assert(hb[n - 2] == hex_digit(y / 16) && hb[n - 1] == hex_digit(y % 16));
        lemma_hex_digit_injective(x / 16, y / 16);
        lemma_hex_digit_injective(x % 16, y % 16);
        assert(x == y) by (nonlinear_arith)
            requires
                x / 16 == y / 16,
                x % 16 == y % 16,
        ;
        assert(upper_hex(a.drop_last()) =~= ha.subrange(0, n - 2));
        assert(upper_hex(b.drop_last()) =~= hb.subrange(0, n - 2));
        lemma_upper_hex_injective(a.drop_last(), b.drop_last());
        assert(a =~= a.drop_last().push(x));
        assert(b =~= b.drop_last().push(y));
    }
}

/// Contents with distinct SHA-256 digests get distinct keys.
pub proof fn lemma_digest_key_distinct(a: Seq<u8>, b: Seq<u8>)
    requires
        sha256_of(a) != sha256_of(b),
    ensures
        digest_key(a) != digest_key(b),
{
    if digest_key(a) == digest_key(b) {
        lemma_upper_hex_injective(sha256_of(a), sha256_of(b));
    }
}

} // verus!
