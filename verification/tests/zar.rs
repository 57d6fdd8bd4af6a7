use iso2x::source::{FileSource, ImageFile, ImageFiles, MemorySource};
use iso2x::zar::archive::ZarArchiveReader;
use iso2x::zar::format::{
    decode_windows_1252, encode_windows_1252, output_file_name, zar_block_size, SectionInfo,
    ZarFooter, FOOTER_HASH_OFFSET, FOOTER_MAGIC, FOOTER_SIZE, FOOTER_VERSION,
};
use iso2x::zar::layout::{build_file_tree, build_name_table};
use iso2x::zar::read::{build_files, parse_tree_entry, read_name, TreeNodeRaw, ZarReadError};
use iso2x::zar::tree::{insert_path, TreeError, TreeNode};
use iso2x::zar::write::{ZarSession, ZarWriteError};
use sha2::Digest;

fn sample_footer() -> ZarFooter {
    ZarFooter {
        compressed_data: SectionInfo {
            offset: 0,
            size: 100,
        },
        offset_records: SectionInfo {
            offset: 100,
            size: 40,
        },
        names: SectionInfo {
            offset: 140,
            size: 20,
        },
        file_tree: SectionInfo {
            offset: 160,
            size: 16,
        },
        meta_directory: SectionInfo {
            offset: 176,
            size: 0,
        },
        meta_data: SectionInfo {
            offset: 176,
            size: 0,
        },
        hash: [0xAB; 32],
        total_size: 176 + FOOTER_SIZE as u64,
        version: FOOTER_VERSION,
        magic: FOOTER_MAGIC,
    }
}
#[test]
fn binrw_round_trip_preserves_all_fields() {
    let footer = sample_footer();
    let mut buf = Vec::new();
    footer.write(&mut buf);
    assert_eq!(buf.len(), FOOTER_SIZE);

    let parsed = ZarFooter::read(&buf).expect("read should parse it back");
    assert_eq!(parsed, footer);
}

#[test]
fn fields_land_at_documented_byte_offsets() {
    let footer = sample_footer();
    let mut buf = Vec::new();
    footer.write(&mut buf);

    assert_eq!(read_be_section(&buf[0..16]), footer.compressed_data);
    assert_eq!(read_be_section(&buf[16..32]), footer.offset_records);
    assert_eq!(read_be_section(&buf[32..48]), footer.names);
    assert_eq!(read_be_section(&buf[48..64]), footer.file_tree);
    assert_eq!(read_be_section(&buf[64..80]), footer.meta_directory);
    assert_eq!(read_be_section(&buf[80..96]), footer.meta_data);
    assert_eq!(
        &buf[FOOTER_HASH_OFFSET..FOOTER_HASH_OFFSET + 32],
        &footer.hash
    );
    assert_eq!(
        u64::from_be_bytes(buf[128..136].try_into().unwrap()),
        footer.total_size
    );
    assert_eq!(
        u32::from_be_bytes(buf[136..140].try_into().unwrap()),
        footer.version
    );
    assert_eq!(
        u32::from_be_bytes(buf[140..144].try_into().unwrap()),
        footer.magic
    );
}

fn read_be_section(bytes: &[u8]) -> SectionInfo {
    SectionInfo {
        offset: u64::from_be_bytes(bytes[0..8].try_into().unwrap()),
        size: u64::from_be_bytes(bytes[8..16].try_into().unwrap()),
    }
}

#[test]
fn ascii_round_trips() {
    assert_eq!(encode_windows_1252("default.xbe"), b"default.xbe");
    assert_eq!(decode_windows_1252(b"default.xbe"), "default.xbe");
}
#[test]
fn latin1_range_char_round_trips() {
    assert_eq!(encode_windows_1252("café"), b"caf\xE9");
    assert_eq!(decode_windows_1252(b"caf\xE9"), "café");
}
#[test]
fn high_table_char_round_trips() {
    assert_eq!(encode_windows_1252("\u{20AC}"), vec![0x80]);
    assert_eq!(decode_windows_1252(&[0x80]), "\u{20AC}");
}

#[test]
fn unmappable_char_falls_back_to_question_mark() {
    assert_eq!(encode_windows_1252("\u{4E2D}"), b"?");
}

#[test]
fn decode_never_panics_on_any_byte() {
    let all_bytes: Vec<u8> = (0..=255).collect();
    let _ = decode_windows_1252(&all_bytes);
}

#[test]
fn whatwg_unassigned_slots_decode_to_their_own_c1_control_codepoint() {
    assert_eq!(decode_windows_1252(&[0x81]), "\u{0081}");
    assert_eq!(decode_windows_1252(&[0x8D]), "\u{008D}");
    assert_eq!(decode_windows_1252(&[0x8F]), "\u{008F}");
    assert_eq!(decode_windows_1252(&[0x90]), "\u{0090}");
    assert_eq!(decode_windows_1252(&[0x9D]), "\u{009D}");
}

#[test]
fn every_byte_round_trips() {
    for b in 0u8..=255 {
        let decoded = decode_windows_1252(&[b]);
        assert_eq!(
            decoded.chars().count(),
            1,
            "byte {b:#04x} decoded to != 1 char"
        );
        let reencoded = encode_windows_1252(&decoded);
        assert_eq!(reencoded, vec![b], "byte {b:#04x} didn't round-trip");
    }
}

#[test]
fn read_name_decodes_short_form() {
    let table = [3u8, b'f', b'o', b'o'];
    assert_eq!(read_name(&table, 0).unwrap(), "foo");
}

#[test]
fn read_name_decodes_long_form() {
    let len = 200usize;
    let b0 = 0x80 | (len & 0x7F) as u8;
    let b1 = (len >> 7) as u8;
    let mut table = vec![b0, b1];
    table.extend(std::iter::repeat(b'a').take(len));
    let name = read_name(&table, 0).unwrap();
    assert_eq!(name.len(), len);
}

#[test]
fn read_name_rejects_offset_past_end_of_table() {
    let table = [1u8, b'x'];
    assert!(read_name(&table, 10).is_err());
}

#[test]
fn read_name_rejects_length_extending_past_table() {
    let table = [50u8, b'x'];
    assert!(read_name(&table, 0).is_err());
}

#[test]
fn read_name_rejects_truncated_long_form_header() {
    let table = [0x80u8];
    assert!(read_name(&table, 0).is_err());
}

#[test]
fn read_name_decodes_windows_1252_not_utf8() {
    let table = [1u8, 0xE9];
    assert_eq!(read_name(&table, 0).unwrap(), "é");
}

#[test]
fn read_name_rejects_traversal_component() {
    let table = [2u8, b'.', b'.'];
    assert!(read_name(&table, 0).is_err());
}

#[test]
fn read_name_rejects_embedded_separator() {
    let table = [3u8, b'a', b'/', b'b'];
    assert!(read_name(&table, 0).is_err());
}

fn dir(name_offset: u32, node_start_index: u32, count: u32) -> TreeNodeRaw {
    TreeNodeRaw::Dir {
        name_offset,
        node_start_index,
        count,
    }
}

fn file(name_offset: u32, offset: u64, size: u64) -> TreeNodeRaw {
    TreeNodeRaw::File {
        name_offset,
        offset,
        size,
    }
}

#[test]
fn build_files_rejects_empty_tree() {
    assert!(build_files(&[], &[]).is_err());
}

#[test]
fn build_files_rejects_root_that_is_not_a_directory() {
    let names = [3u8, b'f', b'o', b'o'];
    assert!(build_files(&names, &[file(0, 0, 0)]).is_err());
}

#[test]
fn build_files_rejects_child_range_overflow() {
    let names = [0u8];
    let entries = [dir(0, u32::MAX, 2)];
    assert!(build_files(&names, &entries).is_err());
}

#[test]
fn build_files_rejects_child_index_out_of_range() {
    let names = [0u8];
    let entries = [dir(0, 5, 1)];
    assert!(build_files(&names, &entries).is_err());
}

#[test]
fn build_files_rejects_traversal_child_name() {
    let names = [2u8, b'.', b'.'];
    let entries = [dir(0, 1, 1), file(0, 0, 0)];
    let err = build_files(&names, &entries).unwrap_err();
    assert!(err.message().contains("unsafe path component"));
}

#[test]
fn build_files_rejects_self_referencing_directory() {
    let names = [0u8];
    let entries = [dir(0, 0, 1)];
    let err = build_files(&names, &entries).unwrap_err();
    assert!(err.message().contains("revisited"));
}

#[test]
fn build_files_rejects_ancestor_cycle() {
    let names = [1u8, b'd'];
    let entries = [dir(0, 1, 1), dir(0, 0, 1)];
    let err = build_files(&names, &entries).unwrap_err();
    assert!(err.message().contains("revisited"));
}

#[test]
fn build_files_resolves_nested_paths() {
    let mut names = Vec::new();
    let sub_off = names.len() as u32;
    names.push(3u8);
    names.extend_from_slice(b"sub");
    let file_off = names.len() as u32;
    names.push(5u8);
    names.extend_from_slice(b"a.bin");

    let entries = [dir(0, 1, 1), dir(sub_off, 2, 1), file(file_off, 100, 10)];
    let files = build_files(&names, &entries).unwrap();
    assert_eq!(files, vec![("sub/a.bin".to_string(), 100, 10)]);
}

fn encode_tree_entry(node: &TreeNodeRaw) -> [u8; 16] {
    let mut out = [0u8; 16];
    match *node {
        TreeNodeRaw::Dir {
            name_offset,
            node_start_index,
            count,
        } => {
            out[0..4].copy_from_slice(&name_offset.to_be_bytes());
            out[4..8].copy_from_slice(&node_start_index.to_be_bytes());
            out[8..12].copy_from_slice(&count.to_be_bytes());
        }
        TreeNodeRaw::File {
            name_offset,
            offset,
            size,
        } => {
            let flag = name_offset | 0x8000_0000;
            out[0..4].copy_from_slice(&flag.to_be_bytes());
            out[4..8].copy_from_slice(&(offset as u32).to_be_bytes());
            out[8..12].copy_from_slice(&(size as u32).to_be_bytes());
            let high =
                (((size >> 32) & 0xFFFF) << 16) as u32 | ((offset >> 32) & 0xFFFF) as u32;
            out[12..16].copy_from_slice(&high.to_be_bytes());
        }
    }
    out
}

fn valid_zar_tree_bytes() -> (Vec<u8>, Vec<u8>) {
    let mut names = Vec::new();
    let sub_off = names.len() as u32;
    names.push(3u8);
    names.extend_from_slice(b"sub");
    let file_off = names.len() as u32;
    names.push(5u8);
    names.extend_from_slice(b"a.bin");

    let entries = [dir(0, 1, 1), dir(sub_off, 2, 1), file(file_off, 100, 10)];
    let tree_bytes = entries.iter().flat_map(encode_tree_entry).collect();
    (names, tree_bytes)
}

#[test]
fn valid_zar_tree_bytes_resolves_via_build_files() {
    let (names, tree_bytes) = valid_zar_tree_bytes();
    let entries: Vec<_> = tree_bytes
        .chunks_exact(16)
        .map(|c| parse_tree_entry(c.try_into().unwrap()))
        .collect();
    let files = build_files(&names, &entries).expect("hand-built tree should resolve");
    assert_eq!(files, vec![("sub/a.bin".to_string(), 100, 10)]);
}

#[test]
fn non_ascii_name_is_encoded_as_windows_1252_not_utf8() {
    let (table, offsets) = build_name_table(&["café.txt".to_owned()]);
    assert_eq!(table[0], 8);
    assert_eq!(&table[1..9], b"caf\xE9.txt");
    assert_eq!(offsets, vec![0]);
}

fn noise(n: usize, seed: u64) -> Vec<u8> {
    let mut x: u64 = seed.wrapping_mul(2).wrapping_add(1);
    let mut v: Vec<u8> = Vec::new();
    while v.len() < n {
        x ^= x << 13;
        x ^= x >> 7;
        x ^= x << 17;
        v.push((x >> 24) as u8);
    }
    v
}

fn file_set(files: &[(&str, Vec<u8>)]) -> ImageFiles<MemorySource> {
    let mut data = Vec::new();
    let mut list = Vec::new();
    for (path, contents) in files {
        list.push(ImageFile {
            path: path.to_string(),
            offset: data.len() as u64,
            size: contents.len() as u64,
        });
        data.extend_from_slice(contents);
    }
    ImageFiles::new(MemorySource { data }, list)
}

fn write_zar(files: &[(&str, Vec<u8>)], max_bytes: usize) -> Vec<u8> {
    let mut session = ZarSession::open(file_set(files), "game".to_string()).ok().unwrap();
    assert!(session.output_manifest().is_empty());
    assert_eq!(session.units_done(), 0);
    let mut out = Vec::new();
    while let Some(chunk) = session.next_chunk(max_bytes).ok().unwrap() {
        assert!(chunk.len() <= max_bytes);
        out.extend_from_slice(&chunk);
    }
    assert!(session.is_done());
    assert_eq!(session.units_done(), session.total_units());
    assert_eq!(session.current_entry_name(), None);
    assert_eq!(session.output_manifest(), vec![("game.zar".to_string(), out.len() as u64)]);
    out
}

#[test]
fn written_zar_archive_reads_back() {
    let files = vec![
        ("default.xbe", noise(100_000, 1)),
        ("media/b.bin", vec![5u8; 200_000]),
        ("Media/a.bin", Vec::new()),
        ("caf\u{e9}.txt", b"hello".to_vec()),
    ];
    let bytes = write_zar(&files, 7777);
    let mut reader = ZarArchiveReader::open(MemorySource { data: bytes }).ok().unwrap();
    let entries = reader.file_entries();
    assert_eq!(
        entries,
        vec![
            ("caf\u{e9}.txt".to_string(), 5),
            ("default.xbe".to_string(), 100_000),
            ("media/a.bin".to_string(), 0),
            ("media/b.bin".to_string(), 200_000),
        ]
    );
    let originals = [&files[3].1, &files[0].1, &files[2].1, &files[1].1];
    for (i, original) in originals.iter().enumerate() {
        let got = reader.read_file_range(i, 0, original.len()).ok().unwrap();
        assert_eq!(&got, *original);
    }
    let got = reader.read_file_range(1, 65_000, 2000).ok().unwrap();
    assert_eq!(got, &files[0].1[65_000..67_000]);
    assert!(matches!(reader.read_file_range(0, 1, 5), Err(ZarReadError::PastEndOfFile)));
    assert!(matches!(reader.read_file_range(9, 0, 0), Err(ZarReadError::NoSuchFile)));
}

#[test]
fn zar_footer_hash_covers_the_archive_with_the_hash_zeroed() {
    let mut bytes = write_zar(&[("a", vec![1u8; 10])], 1 << 20);
    let footer = ZarFooter::read(&bytes[bytes.len() - FOOTER_SIZE..]).unwrap();
    assert_eq!(footer.total_size, bytes.len() as u64);
    assert_eq!(footer.offset_records.size, 40);
    assert_eq!(footer.file_tree.size, 32);
    let at = bytes.len() - FOOTER_SIZE + FOOTER_HASH_OFFSET;
    bytes[at..at + 32].fill(0);
    let expected: [u8; 32] = sha2::Sha256::digest(&bytes).into();
    assert_eq!(footer.hash, expected);
}

#[test]
fn zar_archive_of_no_files_is_still_an_archive() {
    let bytes = write_zar(&[], 100);
    let reader = ZarArchiveReader::open(MemorySource { data: bytes }).ok().unwrap();
    assert!(reader.file_entries().is_empty());
}

#[test]
fn zar_refuses_bad_paths() {
    let open = |paths: &[&str]| {
        let files: Vec<(&str, Vec<u8>)> = paths.iter().map(|p| (*p, vec![0u8])).collect();
        match ZarSession::open(file_set(&files), "g".to_string()) {
            Ok(_) => None,
            Err(ZarWriteError::Tree(e)) => Some(e),
            Err(_) => panic!("unexpected error"),
        }
    };
    assert_eq!(open(&["//"]), Some(TreeError::EmptyPath));
    assert_eq!(open(&["a/b", "A/B"]), Some(TreeError::DuplicatePath));
    assert_eq!(open(&["a", "a/b"]), Some(TreeError::FileAsDirectory));
    assert_eq!(open(&["a/b", "a/c"]), None);
}

#[test]
fn damaged_zar_archives_are_refused() {
    let good = write_zar(&[("a", vec![1u8; 10])], 1 << 20);
    let n = good.len();
    let open = |b: Vec<u8>| match ZarArchiveReader::open(MemorySource { data: b }) {
        Ok(_) => None,
        Err(e) => Some(e),
    };
    let edit = |at: usize, v: u8| {
        let mut b = good.clone();
        b[at] = v;
        b
    };
    assert_eq!(open(good.clone()), None);
    assert_eq!(open(good[..100].to_vec()), Some(ZarReadError::TooSmall));
    assert_eq!(open(edit(n - 1, 0)), Some(ZarReadError::BadMagic));
    assert_eq!(open(edit(n - 5, 0)), Some(ZarReadError::UnsupportedVersion));
    assert_eq!(open(edit(n - 10, 0xFF)), Some(ZarReadError::SizeMismatch));
    assert_eq!(open(edit(n - 144, 0xFF)), Some(ZarReadError::SectionOutOfRange));
    assert_eq!(open(edit(n - 144 + 31, 41)), Some(ZarReadError::RaggedOffsetRecords));
    assert_eq!(open(edit(n - 144 + 63, 33)), Some(ZarReadError::RaggedFileTree));
    let mut reader = ZarArchiveReader::open(MemorySource { data: edit(0, 0) }).ok().unwrap();
    assert!(matches!(reader.read_file_range(0, 0, 1), Err(ZarReadError::BadBlock(0))));
    assert_eq!(ZarReadError::TooSmall.message(), "zar: file too small to contain a footer");
}

#[test]
fn zar_archive_is_itself_a_file_source() {
    let bytes = write_zar(&[("a", b"abc".to_vec())], 1 << 20);
    let inner = ZarArchiveReader::open(MemorySource { data: bytes }).ok().unwrap();
    let mut session = ZarSession::open(inner, "again".to_string()).ok().unwrap();
    let mut out = Vec::new();
    while let Some(chunk) = session.next_chunk(1000).ok().unwrap() {
        out.extend_from_slice(&chunk);
    }
    let mut again = ZarArchiveReader::open(MemorySource { data: out }).ok().unwrap();
    assert_eq!(FileSource::read_file_range(&mut again, 0, 0, 3).ok().unwrap(), b"abc");
}

#[test]
fn zar_names_and_sizes_have_their_documented_values() {
    assert_eq!(zar_block_size(), 65536);
    assert_eq!(output_file_name("game"), "game.zar");
}

#[test]
fn built_tree_lists_each_file_once() {
    let mut nodes = vec![TreeNode {
        is_file: false,
        name_index: 0,
        parent: 0,
        children: Vec::new(),
        file_offset: 0,
        file_size: 0,
    }];
    let mut names = Vec::new();
    let mut offset = 0u64;
    let files = [("b/Z.bin", 7u64), ("a.bin", 0), ("b/c.bin", 5), ("B/d/e.bin", 1 << 40)];
    for (path, size) in files {
        insert_path(&mut nodes, &mut names, path, size, &mut offset).unwrap();
    }
    let before = offset;
    assert!(insert_path(&mut nodes, &mut names, "A.BIN", 9, &mut offset).is_err());
    assert!(insert_path(&mut nodes, &mut names, "a.bin/x", 9, &mut offset).is_err());
    assert!(insert_path(&mut nodes, &mut names, "//", 9, &mut offset).is_err());
    assert_eq!(offset, before);
    assert_eq!(nodes.len(), 7);
    let (table, offsets) = build_name_table(&names);
    let bytes = build_file_tree(&mut nodes, &names, &offsets);
    assert_eq!(bytes.len(), 16 * nodes.len());
    let entries: Vec<TreeNodeRaw> = bytes
        .chunks(16)
        .map(|b| {
            let entry: [u8; 16] = b.try_into().unwrap();
            parse_tree_entry(&entry)
        })
        .collect();
    assert!(matches!(
        entries[0],
        TreeNodeRaw::Dir { name_offset: 0x7FFF_FFFF, node_start_index: 1, count: 2 }
    ));
    let listed = build_files(&table, &entries).ok().unwrap();
    assert_eq!(
        listed,
        vec![
            ("a.bin".to_string(), 7, 0),
            ("b/c.bin".to_string(), 7, 5),
            ("b/Z.bin".to_string(), 0, 7),
            ("b/d/e.bin".to_string(), 12, 1 << 40),
        ]
    );
}
