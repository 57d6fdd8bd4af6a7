use iso2x::stfs::format::{
    FILE_ENTRY_SIZE, NAME_LEN_OFFSET, PATH_INDICATOR_OFFSET, ROOT_ENTRY_INDEX,
};
use iso2x::stfs::listing::{
    build_paths, check_block_in_range, decode_file_entry_bytes, EntrySlot, RawEntry,
};

fn entry(name: &str, entry_index: u16, path_indicator: u16, is_directory: bool) -> RawEntry {
    RawEntry {
        name: name.to_owned(),
        entry_index,
        path_indicator,
        is_directory,
        is_contiguous: true,
        starting_block_num: 0,
        file_size: 0,
    }
}

#[test]
fn check_block_in_range_rejects_block_beyond_allocated_count() {
    let err = check_block_in_range(1000, 5).unwrap_err();
    assert!(err.message().contains("illegal block number"));
}

#[test]
fn check_block_in_range_accepts_every_in_range_block() {
    for block in 0..5u64 {
        assert!(
            check_block_in_range(block, 5).is_ok(),
            "block {block} should be accepted for a 5-block package"
        );
    }
}

#[test]
fn check_block_in_range_rejects_block_equal_to_allocated_count() {
    let err = check_block_in_range(5, 5).unwrap_err();
    assert!(err.message().contains("illegal block number"));
}

#[test]
fn build_paths_resolves_nested_paths() {
    let entries = [
        entry("sub", 0, ROOT_ENTRY_INDEX, true),
        entry("a.bin", 1, 0, false),
    ];
    let files = build_paths(&entries).unwrap();
    assert_eq!(files, [("sub/a.bin".to_owned(), 0, 0, true)]);
}

#[test]
fn build_paths_rejects_traversal_in_own_name() {
    let entries = [entry("..", 0, ROOT_ENTRY_INDEX, false)];
    let err = build_paths(&entries).unwrap_err();
    assert!(err.message().contains("unsafe path component"));
}

#[test]
fn build_paths_rejects_traversal_in_ancestor_directory_name() {
    let entries = [
        entry("..", 0, ROOT_ENTRY_INDEX, true),
        entry("evil.bin", 1, 0, false),
    ];
    let err = build_paths(&entries).unwrap_err();
    assert!(err.message().contains("unsafe path component"));
}

#[test]
fn build_paths_rejects_embedded_separator() {
    let entries = [entry("a/b", 0, ROOT_ENTRY_INDEX, false)];
    assert!(build_paths(&entries).is_err());
}

fn raw_file_entry_bytes(
    name: &str,
    is_directory: bool,
    is_contiguous: bool,
    path_indicator: u16,
    starting_block_num: u32,
    file_size: u32,
) -> [u8; FILE_ENTRY_SIZE] {
    let mut buf = [0u8; FILE_ENTRY_SIZE];
    buf[0..name.len()].copy_from_slice(name.as_bytes());
    let flags = (u8::from(is_directory) << 1) | u8::from(is_contiguous);
    buf[NAME_LEN_OFFSET] = (flags << 6) | (name.len() as u8 & 0x3F);
    buf[0x2F..PATH_INDICATOR_OFFSET].copy_from_slice(&starting_block_num.to_le_bytes()[0..3]);
    buf[PATH_INDICATOR_OFFSET..PATH_INDICATOR_OFFSET + 2]
        .copy_from_slice(&path_indicator.to_be_bytes());
    buf[PATH_INDICATOR_OFFSET + 2..PATH_INDICATOR_OFFSET + 6]
        .copy_from_slice(&file_size.to_be_bytes());
    buf
}

#[test]
fn raw_file_entry_bytes_round_trips_through_decode_file_entry_bytes() {
    let buf = raw_file_entry_bytes("dir", true, false, ROOT_ENTRY_INDEX, 0, 0);
    match decode_file_entry_bytes(&buf, 0) {
        EntrySlot::Entry(e) => {
            assert_eq!(e.name, "dir");
            assert!(e.is_directory);
            assert_eq!(e.path_indicator, ROOT_ENTRY_INDEX);
        }
        _ => panic!("expected a real entry"),
    }
}

fn valid_stfs_paths_bytes() -> Vec<u8> {
    let mut buf = Vec::new();
    buf.extend_from_slice(&raw_file_entry_bytes(
        "dir",
        true,
        false,
        ROOT_ENTRY_INDEX,
        0,
        0,
    ));
    buf.extend_from_slice(&raw_file_entry_bytes("file.txt", false, true, 0, 5, 1024));
    buf
}

#[test]
fn valid_stfs_paths_bytes_resolves_via_fuzz_build_paths_decode() {
    let data = valid_stfs_paths_bytes();
    let entries: Vec<RawEntry> = data
        .chunks_exact(FILE_ENTRY_SIZE)
        .enumerate()
        .filter_map(|(i, chunk)| {
            let buf: &[u8; FILE_ENTRY_SIZE] = chunk.try_into().expect("chunks_exact");
            match decode_file_entry_bytes(buf, i as u16) {
                EntrySlot::Entry(e) => Some(e),
                _ => None,
            }
        })
        .collect();
    let files = build_paths(&entries).expect("listing should resolve");
    assert_eq!(files, [("dir/file.txt".to_owned(), 5, 1024, true)]);
}

#[test]
fn names_that_are_not_utf8_are_read_with_replacements() {
    let mut buf = raw_file_entry_bytes("ab", false, true, ROOT_ENTRY_INDEX, 1, 2);
    buf[1] = 0xFF;
    match decode_file_entry_bytes(&buf, 3) {
        EntrySlot::Entry(e) => {
            assert_eq!(e.name, "a\u{FFFD}");
            assert_eq!(e.entry_index, 3);
            assert_eq!((e.starting_block_num, e.file_size), (1, 2));
        }
        EntrySlot::Empty => panic!("expected a real entry"),
    }
    assert!(matches!(decode_file_entry_bytes(&[0u8; 64], 0), EntrySlot::Empty));
}

#[test]
fn listings_with_bad_parents_are_refused() {
    let dangling = [entry("a", 0, 5, false)];
    assert!(build_paths(&dangling).unwrap_err().message().contains("dangling"));
    let under_file = [entry("f", 0, ROOT_ENTRY_INDEX, false), entry("a", 1, 0, false)];
    assert!(build_paths(&under_file).unwrap_err().message().contains("isn't a directory"));
    let cycle = [entry("d", 0, 0, true), entry("a", 1, 0, false)];
    assert!(build_paths(&cycle).unwrap_err().message().contains("too deep"));
}
