use iso2x::bytes::{get_be, get_le, put_be, put_le, write_be, write_le};
use iso2x::options::utf16le_bytes;
use iso2x::utils::mstime::pack_ms_timestamp;
use iso2x::utils::paths::{join_path, split_path};
use iso2x::utils::safe_path::is_safe_path_component;
use iso2x::utils::text::{decode_utf16_lossy, encode_utf16, push_decimal4, push_hex};

#[test]
fn accepts_ordinary_names() {
    for name in ["foo.txt", "default.xbe", "café.txt", "€uro", "a b"] {
        assert!(is_safe_path_component(name), "{name:?} should be safe");
    }
}

#[test]
fn rejects_empty() {
    assert!(!is_safe_path_component(""));
}

#[test]
fn rejects_dot_and_dotdot() {
    assert!(!is_safe_path_component("."));
    assert!(!is_safe_path_component(".."));
}

#[test]
fn accepts_names_that_merely_start_or_end_with_dots() {
    for name in ["...", "..foo", "foo..", "..foo..", ".gitignore", ".hidden"] {
        assert!(is_safe_path_component(name), "{name:?} should be safe");
    }
}

#[test]
fn rejects_embedded_separators() {
    assert!(!is_safe_path_component("a/b"));
    assert!(!is_safe_path_component("a\\b"));
    assert!(!is_safe_path_component("../evil"));
    assert!(!is_safe_path_component("..\\evil"));
}

#[test]
fn rejects_embedded_nul() {
    assert!(!is_safe_path_component("evil\0.txt"));
}

#[test]
fn never_panics_on_arbitrary_bytes() {
    for b in 0u8..=255 {
        if let Ok(s) = std::str::from_utf8(&[b]) {
            let _ = is_safe_path_component(s);
        }
    }
}

#[test]
fn timestamp_fields_are_packed_into_their_bits() {
    let t = pack_ms_timestamp(2024, 2, 29, 13, 45, 58);
    assert_eq!(t, (44 << 25) | (2 << 21) | (29 << 16) | (13 << 11) | (45 << 5) | 26);
    assert_eq!(pack_ms_timestamp(1996, 1, 1, 0, 0, 0), (1 << 21) | (1 << 16));
}

#[test]
fn integers_are_written_and_read_in_both_byte_orders() {
    let mut v = Vec::new();
    put_be(&mut v, 0x0102_0304, 4);
    put_le(&mut v, 0x0506, 2);
    assert_eq!(v, vec![1, 2, 3, 4, 6, 5]);
    assert_eq!(get_be(&v, 0, 4), 0x0102_0304);
    assert_eq!(get_le(&v, 4, 2), 0x0506);
    write_be(&mut v, 1, 0xAABB, 2);
    write_le(&mut v, 4, 0xCCDD, 2);
    assert_eq!(v, vec![1, 0xAA, 0xBB, 4, 0xDD, 0xCC]);
}

#[test]
fn utf16_round_trips_outside_the_basic_plane() {
    let s = "aé€\u{1F600}";
    assert_eq!(encode_utf16(s), s.encode_utf16().collect::<Vec<u16>>());
    assert_eq!(decode_utf16_lossy(&encode_utf16(s)), s);
    assert_eq!(decode_utf16_lossy(&[0xD83D, 0x0041, 0xDE00]), "\u{FFFD}A\u{FFFD}");
}

#[test]
fn titles_are_encoded_low_byte_first() {
    assert_eq!(utf16le_bytes("A€"), vec![0x41, 0, 0xAC, 0x20]);
    assert!(utf16le_bytes("").is_empty());
}

#[test]
fn paths_split_at_slashes_and_join_again() {
    assert_eq!(split_path("/a//b/c.txt"), vec!["a", "b", "c.txt"]);
    assert!(split_path("//").is_empty());
    assert_eq!(join_path("", "a"), "a");
    assert_eq!(join_path("a/b", "c"), "a/b/c");
}

#[test]
fn numbers_are_padded() {
    let mut s = String::new();
    push_decimal4(&mut s, 7);
    push_decimal4(&mut s, 12345);
    push_hex(&mut s, 0xAB, 8);
    assert_eq!(s, "000712345000000AB");
}
