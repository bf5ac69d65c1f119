//! MD5 digests and their hexadecimal form.

use crate::text::digit;
use md5::Digest;
use vstd::prelude::*;

verus! {

/// The MD5 digest of `data`, as the `md-5` crate computes it.
pub uninterp spec fn md5_digest(data: Seq<u8>) -> Seq<u8>;

/// `bytes` in lower-case hexadecimal: two digits for each byte, the high half
/// first.
pub open spec fn hex_lower(bytes: Seq<u8>) -> Seq<char>
    decreases bytes.len(),
{
    if bytes.len() == 0 {
        Seq::empty()
    } else {
        hex_lower(bytes.drop_last()).push(digit(bytes.last() as int / 16)).push(
            digit(bytes.last() as int % 16),
        )
    }
}

/// The number that `bytes` write in base 256, the first byte weighing most.
pub open spec fn be_value(bytes: Seq<u8>) -> nat
    decreases bytes.len(),
{
    if bytes.len() == 0 {
        0
    } else {
        be_value(bytes.drop_last()) * 256 + bytes.last() as nat
    }
}

/// The hexadecimal form of an object identifier for content `data`.
pub open spec fn md5_hex(data: Seq<u8>) -> Seq<char> {
    hex_lower(md5_digest(data))
}

/// `Md5::digest` of the `md-5` crate: the result is the digest of `data`, which
/// has 16 bytes.
#[verifier::external_body]
pub(crate) fn digest(data: &[u8]) -> (d: Vec<u8>)
    ensures
        d@ == md5_digest(data@),
        d@.len() == 16,
{
    md5::Md5::digest(data).to_vec()
}

/// `base16ct::lower::encode_string`: the result writes each byte of `bytes` as
/// two lower-case hexadecimal digits. The function panics on an input of more
/// than `usize::MAX / 2` bytes, which `requires` leaves out.
#[verifier::external_body]
pub(crate) fn encode_hex(bytes: &[u8]) -> (s: String)
    requires
        bytes@.len() * 2 <= usize::MAX,
    ensures
        s@ == hex_lower(bytes@),
{
    base16ct::lower::encode_string(bytes)
}

/// A hexadecimal form has two characters for each byte.
pub proof fn lemma_hex_lower_len(bytes: Seq<u8>)
    ensures
        hex_lower(bytes).len() == 2 * bytes.len(),
    decreases bytes.len(),
{
    if bytes.len() > 0 {
        lemma_hex_lower_len(bytes.drop_last());
    }
}

/// The MD5 digest of `data` in lower-case hexadecimal: 32 characters.
pub fn md5(data: &[u8]) -> (hex: String)
    ensures
        hex@ == md5_hex(data@),
        hex@.len() == 32,
{
    let d = digest(data);
    proof {
        lemma_hex_lower_len(d@);
    }
    encode_hex(d.as_slice())
}

/// The value of up to 16 bytes read as one number, the first byte weighing
/// most.
pub fn be_number(bytes: &[u8]) -> (n: u128)
    requires
        bytes@.len() <= 16,
    ensures
        n == be_value(bytes@),
{
    let mut n: u128 = 0;
    let mut i: usize = 0;
    while i < bytes.len()
        invariant
            i <= bytes@.len() <= 16,
            n == be_value(bytes@.take(i as int)),
            n < pow256(i as nat),
        decreases bytes@.len() - i,
    {
        proof {
            assert(bytes@.take(i + 1).drop_last() =~= bytes@.take(i as int));
            lemma_pow256_bound(i as nat);
        }
        n = n * 256 + bytes[i] as u128;
        i += 1;
    }
    proof {
        assert(bytes@.take(i as int) =~= bytes@);
    }
    n
}

/// 256 to the power `k`.
pub open spec fn pow256(k: nat) -> nat
    decreases k,
{
    if k == 0 {
        1
    } else {
        256 * pow256((k - 1) as nat)
    }
}

proof fn lemma_pow256_bound(k: nat)
    requires
        k < 16,
    ensures
        pow256(k) * 256 == pow256(k + 1),
        pow256(k + 1) <= 0x1_0000_0000_0000_0000_0000_0000_0000_0000,
{
    reveal_with_fuel(pow256, 18);
}

} // verus!
