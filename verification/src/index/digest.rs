//! Content digests: the SHA-256 of a file's bytes, written in hexadecimal.

use sha2::{Digest, Sha256};
use vstd::prelude::*;

verus! {

broadcast use vstd::seq::group_seq_axioms;

/// The SHA-256 digest of a sequence of bytes.
pub uninterp spec fn sha256_of(data: Seq<u8>) -> Seq<u8>;

/// `Sha256`, fed with `data` and finalized, gives the SHA-256 digest of `data`, which has 32 bytes.
#[verifier::external_body]
fn sha256(data: &[u8]) -> (d: Vec<u8>)
    ensures
        d@ == sha256_of(data@),
        d@.len() == 32,
{
    let mut hasher = Sha256::new();
    hasher.update(data);
    hasher.finalize().to_vec()
}

/// The hexadecimal digit for a value under 16.
pub open spec fn hex_digit(v: int) -> char {
    if v < 10 {
        (0x30 + v) as char
    } else {
        (0x57 + v) as char
    }
}

/// The bytes of `d` in lowercase hexadecimal, two digits each, the high one first.
pub open spec fn hex(d: Seq<u8>) -> Seq<char> {
    Seq::new(
        2 * d.len(),
        |i: int|
            if i % 2 == 0 {
                hex_digit(d[i / 2] as int / 16)
            } else {
                hex_digit(d[i / 2] as int % 16)
            },
    )
}

/// The digit for a value under 16.
fn digit(v: u8) -> (c: char)
    requires
        v < 16,
    ensures
        c == hex_digit(v as int),
{
    if v < 10 {
        (0x30 + v) as char
    } else {
        (0x57 + v) as char
    }
}

/// Writes bytes in lowercase hexadecimal.
pub fn hex_of(d: &[u8]) -> (s: String)
    ensures
        s@ == hex(d@),
{
    let mut s = String::new();
    let mut i: usize = 0;
    while i < d.len()
        invariant
            i <= d@.len(),
            s@ == hex(d@.take(i as int)),
        decreases d@.len() - i,
    {
        let b: u8 = d[i];
        s.push(digit(b / 16));
        s.push(digit(b % 16));
        proof {
            let t = d@.take(i + 1);
            assert(hex(t) =~= hex(d@.take(i as int)).push(hex_digit(b as int / 16)).push(
                hex_digit(b as int % 16),
            )) by {
                assert forall|k: int| 0 <= k < 2 * i implies hex(t)[k] == hex(d@.take(i as int))[k] by {
                    assert(0 <= k / 2 < i);
                }
            }
        }
        i += 1;
    }
    assert(d@.take(i as int) =~= d@);
    s
}

/// The digest of a file's content, as it is kept in the digest cache.
pub fn content_digest(content: &[u8]) -> (s: String)
    ensures
        s@ == hex(sha256_of(content@)),
        s@.len() == 64,
{
    let d = sha256(content);
    hex_of(d.as_slice())
}

/// Two digests that are written alike are alike.
pub proof fn law_hex_injective(a: Seq<u8>, b: Seq<u8>)
    requires
        hex(a) == hex(b),
    ensures
        a == b,
{
    assert(hex(a).len() == 2 * a.len());
    assert(hex(b).len() == 2 * b.len());
    assert forall|i: int| 0 <= i < a.len() implies a[i] == b[i] by {
        let j = 2 * i;
        assert(j / 2 == i && j % 2 == 0 && (j + 1) / 2 == i && (j + 1) % 2 == 1);
        assert(hex(a)[j] == hex_digit(a[i] as int / 16));
        assert(hex(b)[j] == hex_digit(b[i] as int / 16));
        assert(hex(a)[j + 1] == hex_digit(a[i] as int % 16));
        assert(hex(b)[j + 1] == hex_digit(b[i] as int % 16));
        lemma_hex_digit(a[i] as int / 16, b[i] as int / 16);
        lemma_hex_digit(a[i] as int % 16, b[i] as int % 16);
    }
    assert(a =~= b);
}

/// Different values under 16 have different digits.
proof fn lemma_hex_digit(v: int, w: int)
    requires
        0 <= v < 16,
        0 <= w < 16,
        hex_digit(v) == hex_digit(w),
    ensures
        v == w,
{
}

/// A digest is written with two digits for each byte, the higher half first.
pub proof fn law_hex_digits(d: Seq<u8>, i: int)
    requires
        0 <= i < d.len(),
    ensures
        hex(d).len() == 2 * d.len(),
        hex(d)[2 * i] == "0123456789abcdef"@[d[i] as int / 16],
        hex(d)[2 * i + 1] == "0123456789abcdef"@[d[i] as int % 16],
{
    reveal_strlit("0123456789abcdef");
    assert((2 * i) / 2 == i && (2 * i) % 2 == 0);
    assert((2 * i + 1) / 2 == i && (2 * i + 1) % 2 == 1);
    lemma_hex_table(d[i] as int / 16);
    lemma_hex_table(d[i] as int % 16);
}

proof fn lemma_hex_table(v: int)
    requires
        0 <= v < 16,
    ensures
        hex_digit(v) == "0123456789abcdef"@[v],
{
    reveal_strlit("0123456789abcdef");
    let t = "0123456789abcdef"@;
    assert(t[0] == '0' && t[1] == '1' && t[2] == '2' && t[3] == '3' && t[4] == '4' && t[5] == '5' && t[6]
        == '6' && t[7] == '7');
    assert(t[8] == '8' && t[9] == '9' && t[10] == 'a' && t[11] == 'b' && t[12] == 'c' && t[13] == 'd'
        && t[14] == 'e' && t[15] == 'f');
}

} // verus!
