//! The digest of a content: its BLAKE3 hash in lower-case hexadecimal.

use vstd::prelude::*;
use crate::text::push_char;

verus! {

/// The BLAKE3 hash of `content`, as raw bytes.
pub uninterp spec fn blake3_hash(content: Seq<u8>) -> Seq<u8>;

/// The number of bytes of a BLAKE3 hash.
pub const HASH_LEN: usize = 32;

/// The number of characters of a digest: two for each byte of the hash.
pub const DIGEST_LEN: usize = 64;

/// `blake3::hash`, read out with `Hash::as_bytes`: the default BLAKE3 hash of
/// the content, which has 32 bytes. The result depends on the content alone.
#[verifier::external_body]
fn hash_bytes(content: &Vec<u8>) -> (hash: Vec<u8>)
    ensures
        hash@ == blake3_hash(content@),
        hash@.len() == HASH_LEN,
{
    blake3::hash(content.as_slice()).as_bytes().to_vec()
}

/// The lower-case hexadecimal digit for a value below 16: `0` to `9`, then
/// `a` to `f`.
pub open spec fn hex_digit(nibble: u8) -> char {
    if nibble < 10 {
        (48 + nibble) as u8 as char
    } else {
        (87 + nibble) as u8 as char
    }
}

/// The character at position `i` of the hexadecimal form of `bytes`: the
/// high half of a byte comes before its low half.
pub open spec fn hex_char_at(bytes: Seq<u8>, i: int) -> char {
    if i % 2 == 0 {
        hex_digit(bytes[i / 2] / 16)
    } else {
        hex_digit(bytes[i / 2] % 16)
    }
}

/// `bytes` in lower-case hexadecimal, two characters for each byte.
pub open spec fn hex_lower(bytes: Seq<u8>) -> Seq<char> {
    Seq::new(2 * bytes.len(), |i: int| hex_char_at(bytes, i))
}

/// The digest of `content`: its BLAKE3 hash in lower-case hexadecimal.
pub open spec fn digest_of(content: Seq<u8>) -> Seq<char> {
    hex_lower(blake3_hash(content))
}

/// Whether `c` is one of the characters `0` to `9` and `a` to `f`.
pub open spec fn is_hex_char(c: char) -> bool {
    ('0' as u32 <= c as u32 <= '9' as u32) || ('a' as u32 <= c as u32 <= 'f' as u32)
}

/// Whether `text` holds lower-case hexadecimal digits only.
pub open spec fn is_lower_hex(text: Seq<char>) -> bool {
    forall|i: int| 0 <= i < text.len() ==> is_hex_char(#[trigger] text[i])
}

/// Whether `text` has the form of a digest: 64 lower-case hexadecimal digits.
pub open spec fn is_digest_text(text: Seq<char>) -> bool {
    text.len() == DIGEST_LEN && is_lower_hex(text)
}

fn digit(nibble: u8) -> (c: char)
    requires
        nibble < 16,
    ensures
        c == hex_digit(nibble),
{
    if nibble < 10 {
        (48 + nibble) as char
    } else {
        (87 + nibble) as char
    }
}

/// Writes `bytes` in lower-case hexadecimal.
pub fn to_hex(bytes: &Vec<u8>) -> (text: String)
    ensures
        text@ == hex_lower(bytes@),
{
    let mut text = String::new();
    let mut i: usize = 0;
    while i < bytes.len()
        invariant
            i <= bytes.len(),
            text@.len() == 2 * i,
            forall|k: int| 0 <= k < 2 * i ==> text@[k] == hex_char_at(bytes@, k),
        decreases bytes.len() - i,
    {
        let byte = bytes[i];
        push_char(&mut text, digit(byte / 16));
        push_char(&mut text, digit(byte % 16));
        i += 1;
    }
    text
}

/// Computes the digest of `content`: 64 lower-case hexadecimal digits.
pub fn compute_digest(content: &Vec<u8>) -> (digest: String)
    ensures
        digest@ == digest_of(content@),
        is_digest_text(digest@),
{
    let hash = hash_bytes(content);
    proof {
        lemma_hex_lower_form(hash@);
    }
    to_hex(&hash)
}

/// The hexadecimal form of bytes has two characters for each byte, and holds
/// lower-case hexadecimal digits only.
pub proof fn lemma_hex_lower_form(bytes: Seq<u8>)
    ensures
        hex_lower(bytes).len() == 2 * bytes.len(),
        is_lower_hex(hex_lower(bytes)),
{
    assert forall|i: int| 0 <= i < hex_lower(bytes).len() implies is_hex_char(#[trigger] hex_lower(bytes)[i]) by {
        let nibble: u8 = if i % 2 == 0 {
            bytes[i / 2] / 16
        } else {
            bytes[i / 2] % 16
        };
        assert(hex_lower(bytes)[i] == hex_digit(nibble));
        lemma_hex_digits();
        if nibble < 10 {
            assert(hex_digit(nibble) as u8 == '0' as u8 + nibble);
        } else {
            assert(hex_digit(nibble) as u8 == 'a' as u8 + nibble - 10);
        }
    }
}

/// The hexadecimal digits are the characters `0` to `9` and `a` to `f`.
pub proof fn lemma_hex_digits()
    ensures
        hex_digit(0) == '0',
        hex_digit(1) == '1',
        hex_digit(9) == '9',
        hex_digit(10) == 'a',
        hex_digit(11) == 'b',
        hex_digit(15) == 'f',
        forall|n: u8| n < 10 ==> #[trigger] hex_digit(n) as u8 == '0' as u8 + n,
        forall|n: u8| 10 <= n < 16 ==> #[trigger] hex_digit(n) as u8 == 'a' as u8 + n - 10,
{
}

/// Different values below 16 have different hexadecimal digits.
pub proof fn lemma_hex_digit_injective(a: u8, b: u8)
    requires
        a < 16,
        b < 16,
        hex_digit(a) == hex_digit(b),
    ensures
        a == b,
{
    let x: u8 = if a < 10 {
        (48 + a) as u8
    } else {
        (87 + a) as u8
    };
    let y: u8 = if b < 10 {
        (48 + b) as u8
    } else {
        (87 + b) as u8
    };
    assert(x as char == y as char);
    assert((x as char) as u8 == x);
    assert((y as char) as u8 == y);
}

/// Different bytes have different hexadecimal forms.
pub proof fn lemma_hex_injective(a: Seq<u8>, b: Seq<u8>)
    requires
        hex_lower(a) == hex_lower(b),
    ensures
        a == b,
{
    assert(hex_lower(a).len() == 2 * a.len());
    assert(hex_lower(b).len() == 2 * b.len());
    assert forall|i: int| 0 <= i < a.len() implies a[i] == b[i] by {
        assert(hex_lower(a)[2 * i] == hex_char_at(a, 2 * i));
        assert(hex_lower(b)[2 * i] == hex_char_at(b, 2 * i));
        assert(hex_lower(a)[2 * i + 1] == hex_char_at(a, 2 * i + 1));
        assert(hex_lower(b)[2 * i + 1] == hex_char_at(b, 2 * i + 1));
        lemma_hex_digit_injective(a[i] / 16, b[i] / 16);
        lemma_hex_digit_injective(a[i] % 16, b[i] % 16);
    }
    assert(a =~= b);
}

/// The digest is a function of the content: equal contents have equal
/// digests. And the digests of two contents are equal only where their
/// BLAKE3 hashes are: writing the hash in hexadecimal makes no two hashes
/// alike.
pub proof fn lemma_digest_of_content(a: Seq<u8>, b: Seq<u8>)
    ensures
        a == b ==> digest_of(a) == digest_of(b),
        digest_of(a) == digest_of(b) <==> blake3_hash(a) == blake3_hash(b),
{
    if digest_of(a) == digest_of(b) {
        lemma_hex_injective(blake3_hash(a), blake3_hash(b));
    }
}

} // verus!
