use loitsu::hashing::{fnv1a_hash, hex_string};
use loitsu::util::{dec_string, format_size};

#[test]
fn decimal_rendering() {
    assert_eq!(dec_string(0), "0");
    assert_eq!(dec_string(7), "7");
    assert_eq!(dec_string(1234), "1234");
    assert_eq!(dec_string(u64::MAX), "18446744073709551615");
}

#[test]
fn hexadecimal_rendering() {
    assert_eq!(hex_string(0), "0");
    assert_eq!(hex_string(255), "FF");
    assert_eq!(hex_string(0xCAFE), "CAFE");
    assert_eq!(hex_string(u64::MAX), "FFFFFFFFFFFFFFFF");
}

#[test]
fn fnv1a_matches_its_reference_values() {
    // FNV-1a 64-bit published reference: the empty input is the offset basis,
    // and "a" hashes to 0xaf63dc4c8601ec8c.
    assert_eq!(fnv1a_hash(&[]), 0xcbf29ce484222325);
    assert_eq!(fnv1a_hash(b"a"), 0xaf63dc4c8601ec8c);
    assert_eq!(fnv1a_hash(b"a"), fnv1a_hash(&[97]));
}

#[test]
fn sizes_render_per_unit() {
    assert_eq!(format_size(0), "0 B");
    assert_eq!(format_size(512), "512 B");
    assert_eq!(format_size(1024), "1024 B");
    assert_eq!(format_size(1536), "1.50 KB");
    assert_eq!(format_size(3 * 1024 * 1024), "3.00 MB");
    assert_eq!(format_size(5 * 1024 * 1024 * 1024), "5.00 GB");
}
