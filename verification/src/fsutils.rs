//! The fingerprint of a file's metadata, by which an unchanged file is
//! recognised without reading it.

use crate::hash::{be_number, be_value, digest, md5_digest};
use crate::text::{decimal, decimal_string};
use vstd::prelude::*;
use vstd::utf8::encode_utf8;

verus! {

/// The text that is hashed for a fingerprint: `([<ino>, <mtime>, <size>],)`,
/// with the modification time as the caller rendered it.
pub open spec fn fingerprint_text(mtime: Seq<char>, ino: nat, size: nat) -> Seq<char> {
    seq!['(', '['] + decimal(ino) + seq![',', ' '] + mtime + seq![',', ' '] + decimal(size)
        + seq![']', ',', ')']
}

/// The fingerprint: the MD5 digest of the text above, read as one 128-bit
/// number and written in decimal.
pub open spec fn fingerprint(mtime: Seq<char>, ino: nat, size: nat) -> Seq<char> {
    decimal(be_value(md5_digest(encode_utf8(fingerprint_text(mtime, ino, size)))))
}

/// Computes the fingerprint of a file from its modification time in seconds
/// (as decimal text), its inode or file identifier, and its size.
pub fn compute_checksum(ut: &str, ino: u128, size: u64) -> (checksum: String)
    ensures
        checksum@ == fingerprint(ut@, ino as nat, size as nat),
{
    let mut st = String::new();
    proof {
        reveal_strlit("([");
        reveal_strlit(", ");
        reveal_strlit("],)");
    }
    st.append("([");
    st.append(decimal_string(ino).as_str());
    st.append(", ");
    st.append(ut);
    st.append(", ");
    st.append(decimal_string(size as u128).as_str());
    st.append("],)");
    assert(st@ =~= fingerprint_text(ut@, ino as nat, size as nat));
    let d = digest(st.as_str().as_bytes());
    decimal_string(be_number(d.as_slice()))
}

} // verus!
