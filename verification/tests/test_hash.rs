use dvc_data::fsutils::compute_checksum;
use dvc_data::hash::{be_number, md5};

#[test]
fn md5_of_nothing() {
    assert_eq!(md5(b""), "d41d8cd98f00b204e9800998ecf8427e");
}

#[test]
fn md5_of_small_files() {
    assert_eq!(md5(b"bar\n\n"), "e5a81dd70644b5534aae9f7c32055ec3");
    assert_eq!(md5(b"baz\n\n"), "eceec35e3f3dd774244de59b1094cc59");
    assert_eq!(md5(b"qux\n"), "89675bad544b3380a3697cb48c17047e");
}

#[test]
fn md5_has_32_lower_hex_digits() {
    let h = md5(b"some bytes");
    assert_eq!(h.len(), 32);
    assert!(h.chars().all(|c| c.is_ascii_digit() || ('a'..='f').contains(&c)));
}

#[test]
fn md5_is_byte_exact() {
    assert_ne!(md5(b"a\r\nb"), md5(b"a\nb"));
}

#[test]
fn be_number_reads_the_first_byte_as_heaviest() {
    assert_eq!(be_number(&[]), 0);
    assert_eq!(be_number(&[1, 2]), 258);
    assert_eq!(be_number(&[0xff; 16]), u128::MAX);
}

#[test]
fn checksum_of_the_documented_triple() {
    assert_eq!(
        compute_checksum("2", 1, 3),
        "127829919842468153309797267312027116502"
    );
}

#[test]
fn checksum_is_decimal_of_digest() {
    let text = "([17, 1700000000.25, 4096],)";
    let hex = md5(text.as_bytes());
    let expected = u128::from_str_radix(&hex, 16).unwrap().to_string();
    assert_eq!(compute_checksum("1700000000.25", 17, 4096), expected);
}

#[test]
fn checksum_is_deterministic_and_non_empty() {
    let a = compute_checksum("2", 1, 3);
    let b = compute_checksum("2", 1, 3);
    assert_eq!(a, b);
    assert!(!a.is_empty());
    assert_ne!(a, compute_checksum("2", 1, 4));
    assert_ne!(a, compute_checksum("2", 2, 3));
    assert_ne!(a, compute_checksum("2.5", 1, 3));
}

#[test]
fn checksum_takes_the_largest_inode_and_size() {
    let text = format!("([{}, 0, {}],)", u128::MAX, u64::MAX);
    let hex = md5(text.as_bytes());
    let expected = u128::from_str_radix(&hex, 16).unwrap().to_string();
    assert_eq!(compute_checksum("0", u128::MAX, u64::MAX), expected);
}
