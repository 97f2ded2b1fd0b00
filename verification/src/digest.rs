//! Content hashes: SHA-256, written in lower-case hexadecimal.

use vstd::prelude::*;

verus! {

/// The SHA-256 digest of `content`.
pub uninterp spec fn sha256(content: Seq<u8>) -> Seq<u8>;

/// `sha2::Sha256::digest`: the digest of the bytes, as the name `sha256`
/// stands for it. The output type of that hasher holds thirty-two bytes.
#[verifier::external_body]
fn sha256_digest(content: &[u8]) -> (r: Vec<u8>)
    ensures
        r@ == sha256(content@),
        r@.len() == 32,
{
    <sha2::Sha256 as sha2::Digest>::digest(content).to_vec()
}

/// The hexadecimal digit for a number under sixteen.
pub open spec fn hex_digit(n: int) -> char {
    if n < 10 {
        ('0' as int + n) as char
    } else {
        ('a' as int + (n - 10)) as char
    }
}

/// Each byte as two hexadecimal digits, the high half first.
pub open spec fn hex(bytes: Seq<u8>) -> Seq<char> {
    Seq::new(
        bytes.len() * 2,
        |i: int|
            if i % 2 == 0 {
                hex_digit(bytes[i / 2] as int / 16)
            } else {
                hex_digit(bytes[i / 2] as int % 16)
            },
    )
}

/// The name under which `content` is stored.
pub open spec fn content_hash(content: Seq<u8>) -> Seq<char> {
    hex(sha256(content))
}

/// A hexadecimal digit of either case.
pub open spec fn is_hex_digit(c: char) -> bool {
    ||| '0' <= c <= '9'
    ||| 'a' <= c <= 'f'
    ||| 'A' <= c <= 'F'
}

/// Text made of hexadecimal digits only.
pub open spec fn all_hex(s: Seq<char>) -> bool {
    forall|i: int| 0 <= i < s.len() ==> is_hex_digit(#[trigger] s[i])
}

fn digit(n: u8) -> (c: char)
    requires
        n < 16,
    ensures
        c == hex_digit(n as int),
        is_hex_digit(c),
{
    if n < 10 {
        (48u8 + n) as char
    } else {
        (97u8 + (n - 10)) as char
    }
}

/// Bytes in lower-case hexadecimal.
pub fn to_hex(bytes: &Vec<u8>) -> (s: String)
    ensures
        s@ == hex(bytes@),
        s@.len() == bytes@.len() * 2,
        all_hex(s@),
{
    let mut s = String::new();
    for i in 0..bytes.len()
        invariant
            s@ == hex(bytes@.take(i as int)),
            all_hex(s@),
    {
        let b = bytes[i];
        let ghost was = s@;
        s.push(digit(b / 16));
        s.push(digit(b % 16));
        proof {
            let t = bytes@.take(i as int);
            let u = bytes@.take(i + 1);
            assert forall|j: int| 0 <= j < u.len() * 2 implies s@[j] == #[trigger] hex(u)[j] by {
                if j < t.len() * 2 {
                    assert(was[j] == hex(t)[j]);
                    assert(t[j / 2] == u[j / 2]);
                }
            }
            assert(s@ =~= hex(u));
        }
    }
    assert(bytes@.take(bytes@.len() as int) =~= bytes@);
    s
}

/// The hash of `content`: sixty-four lower-case hexadecimal digits.
pub fn hash_of(content: &[u8]) -> (s: String)
    ensures
        s@ == content_hash(content@),
        s@.len() == 64,
        all_hex(s@),
{
    to_hex(&sha256_digest(content))
}

/// The value of a lower-case hexadecimal digit.
pub open spec fn digit_value(c: char) -> int {
    if '0' <= c <= '9' {
        c as int - '0' as int
    } else {
        c as int - 'a' as int + 10
    }
}

/// Bytes can be read back from their digits: each pair of digits stands for one
/// byte, and there is a pair for every byte.
pub proof fn hex_reads_back(bytes: Seq<u8>, i: int)
    requires
        0 <= i < bytes.len(),
    ensures
        hex(bytes).len() == 2 * bytes.len(),
        digit_value(hex(bytes)[2 * i]) * 16 + digit_value(hex(bytes)[2 * i + 1]) == bytes[i],
        '0' <= hex(bytes)[2 * i] <= '9' || 'a' <= hex(bytes)[2 * i] <= 'f',
        '0' <= hex(bytes)[2 * i + 1] <= '9' || 'a' <= hex(bytes)[2 * i + 1] <= 'f',
{
    let b = bytes[i];
    assert((2 * i) / 2 == i && (2 * i + 1) / 2 == i);
    assert((2 * i) % 2 == 0 && (2 * i + 1) % 2 == 1);
    let hi = b as int / 16;
    let lo = b as int % 16;
    assert(0 <= hi < 16 && 0 <= lo < 16 && hi * 16 + lo == b);
    assert(hex(bytes)[2 * i] == hex_digit(hi));
    assert(hex(bytes)[2 * i + 1] == hex_digit(lo));
    assert(digit_value(hex_digit(hi)) == hi);
    assert(digit_value(hex_digit(lo)) == lo);
}

/// The hash of some content is the digest of all of it, and nothing else: it
/// reads back as that digest, so two contents share a hash only where they
/// share a digest.
pub proof fn a_hash_is_the_digest_of_the_whole(a: Seq<u8>, b: Seq<u8>)
    ensures
        content_hash(a).len() == 2 * sha256(a).len(),
        forall|i: int|
            0 <= i < sha256(a).len() ==> digit_value(content_hash(a)[2 * i]) * 16 + digit_value(
                content_hash(a)[2 * i + 1],
            ) == #[trigger] sha256(a)[i],
        content_hash(a) == content_hash(b) <==> sha256(a) == sha256(b),
{
    assert forall|i: int| 0 <= i < sha256(a).len() implies digit_value(content_hash(a)[2 * i]) * 16
        + digit_value(content_hash(a)[2 * i + 1]) == #[trigger] sha256(a)[i] by {
        hex_reads_back(sha256(a), i);
    }
    if content_hash(a) == content_hash(b) {
        assert(hex(sha256(a)).len() == hex(sha256(b)).len());
        assert(sha256(a).len() == sha256(b).len());
        assert forall|i: int| 0 <= i < sha256(a).len() implies sha256(a)[i] == #[trigger] sha256(b)[i] by {
            hex_reads_back(sha256(a), i);
            hex_reads_back(sha256(b), i);
        }
        assert(sha256(a) =~= sha256(b));
    }
}

} // verus!
