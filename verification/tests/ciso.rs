use ciso::layout::CSOHeader;
use iso2x::ciso::format::{
    ciso_file_padding_modulus, ciso_file_split_point, ciso_sector_size, ciso_sizing_batch_sectors,
    compress_sector, decode_lz4_sector, locate_part, output_name_for, padded_part_size,
    part_boundaries, serialize_index_table, split_name_for, IndexTableEntry, FILE_PADDING_MODULUS,
    FILE_SPLIT_POINT, SECTOR_SIZE,
};
use iso2x::ciso::read::{
    decode_stored, parse_header_and_index, stored_range, validate_index_table_size,
    validate_stored_range, CisoError, CisoSource,
};
use iso2x::ciso::write::{CisoSession, CisoWriteError};
use iso2x::source::{ByteSource, ImageSource, MemorySource, ReadError};
use std::io::Write;

fn noise(n: usize, seed: u64) -> Vec<u8> {
    let mut x: u64 = seed.wrapping_mul(2).wrapping_add(1);
    let mut v: Vec<u8> = Vec::new();
    while v.len() < n {
        x ^= x << 13;
        x ^= x >> 7;
        x ^= x << 17;
        v.push((x >> 24) as u8);
    }
    v
}

#[test]
fn format_split_name_is_one_indexed() {
    assert_eq!(split_name_for("game", 0), "game.1.cso");
    assert_eq!(split_name_for("game", 1), "game.2.cso");
    assert_eq!(split_name_for("game", 41), "game.42.cso");
}

#[test]
fn format_output_name_is_bare_for_single_part_but_numbered_for_multi() {
    assert_eq!(output_name_for("game", 0, 1), "game.cso");
    assert_eq!(output_name_for("game", 0, 2), "game.1.cso");
    assert_eq!(output_name_for("game", 1, 2), "game.2.cso");
    assert_eq!(output_name_for("game", 3, 4), "game.4.cso");
}

#[test]
fn padded_part_size_rounds_up_to_modulus() {
    assert_eq!(padded_part_size(0), 0);
    assert_eq!(padded_part_size(1), FILE_PADDING_MODULUS);
    assert_eq!(padded_part_size(FILE_PADDING_MODULUS), FILE_PADDING_MODULUS);
    assert_eq!(padded_part_size(FILE_PADDING_MODULUS + 1), FILE_PADDING_MODULUS * 2);
    assert_eq!(padded_part_size(FILE_PADDING_MODULUS * 3), FILE_PADDING_MODULUS * 3);
}

#[test]
fn padded_part_size_never_shrinks_and_stays_within_one_modulus() {
    for size in [0u64, 1, 1023, 1024, 1025, 500_000, FILE_SPLIT_POINT] {
        let padded = padded_part_size(size);
        assert!(padded >= size);
        assert!(padded - size < FILE_PADDING_MODULUS);
        assert_eq!(padded % FILE_PADDING_MODULUS, 0);
    }
}

fn entry(pos: u32) -> IndexTableEntry {
    IndexTableEntry::new(pos, false)
}

#[test]
fn single_part_has_only_the_zero_boundary() {
    let table = vec![entry(0), entry(10), entry(25), entry(40), entry(60)];
    assert_eq!(part_boundaries(&table), vec![0]);
}

#[test]
fn detects_a_single_reset_as_the_second_part_boundary() {
    let table = vec![entry(0), entry(50), entry(90), entry(5), entry(30)];
    assert_eq!(part_boundaries(&table), vec![0, 3]);
}

#[test]
fn detects_multiple_resets_for_a_three_part_split() {
    let table = vec![
        entry(0),
        entry(80),
        entry(2),
        entry(60),
        entry(4),
        entry(45),
        entry(100),
    ];
    assert_eq!(part_boundaries(&table), vec![0, 2, 4]);
}

#[test]
fn equal_consecutive_positions_are_not_a_boundary() {
    let table = vec![entry(0), entry(10), entry(10), entry(25)];
    assert_eq!(part_boundaries(&table), vec![0]);
}

#[test]
fn single_part_always_resolves_to_zero() {
    let starts = vec![0u64];
    assert_eq!(locate_part(&starts, 0), 0);
    assert_eq!(locate_part(&starts, 500), 0);
}

#[test]
fn resolves_each_side_of_a_boundary() {
    let starts = vec![0u64, 100, 300];
    assert_eq!(locate_part(&starts, 0), 0);
    assert_eq!(locate_part(&starts, 99), 0);
    assert_eq!(locate_part(&starts, 100), 1);
    assert_eq!(locate_part(&starts, 250), 1);
    assert_eq!(locate_part(&starts, 300), 2);
    assert_eq!(locate_part(&starts, 9999), 2);
}

fn compress_for_test(data: &[u8]) -> Vec<u8> {
    let cfg = lz4_flex::frame::FrameInfo::new()
        .block_mode(lz4_flex::frame::BlockMode::Independent)
        .block_size(lz4_flex::frame::BlockSize::Max64KB)
        .content_checksum(false)
        .block_checksums(false)
        .legacy_frame(true)
        .content_size(None);
    let mut encoder = lz4_flex::frame::FrameEncoder::with_frame_info(cfg, Vec::new());
    encoder.write_all(data).unwrap();
    let compressed = encoder.finish().unwrap();
    compressed[7..compressed.len() - 4].to_vec()
}

#[test]
fn decode_round_trips_compress_sector_output() {
    let mut original = vec![0u8; usize::try_from(SECTOR_SIZE).unwrap()];
    for (i, b) in original.iter_mut().enumerate() {
        *b = u8::try_from(i % 256).unwrap();
    }
    let compressed = compress_for_test(&original);
    assert!(compressed.len() < original.len());
    let decoded = decode_lz4_sector(&compressed).unwrap();
    assert_eq!(decoded, original);
}

#[test]
fn decode_round_trips_all_zero_sector() {
    let original = vec![0u8; usize::try_from(SECTOR_SIZE).unwrap()];
    let compressed = compress_for_test(&original);
    let decoded = decode_lz4_sector(&compressed).unwrap();
    assert_eq!(decoded, original);
}

#[test]
fn validate_index_table_size_accepts_a_table_that_fits() {
    assert!(validate_index_table_size(100, 24, 24 + 400).is_ok());
}

#[test]
fn validate_index_table_size_rejects_a_table_claimed_larger_than_the_part() {
    assert!(validate_index_table_size(usize::MAX / 8, 24, 1000).is_err());
}

#[test]
fn validate_index_table_size_rejects_when_the_part_is_smaller_than_its_own_header() {
    assert!(validate_index_table_size(1, 24, 10).is_err());
}

#[test]
fn validate_stored_range_accepts_a_range_within_the_part() {
    assert!(validate_stored_range(100, 50, 1000).is_ok());
}

#[test]
fn validate_stored_range_rejects_a_range_that_overruns_the_part() {
    assert!(validate_stored_range(900, 500, 1000).is_err());
}

#[test]
fn validate_stored_range_rejects_a_range_whose_end_overflows_u64() {
    assert!(validate_stored_range(u64::MAX - 10, u32::MAX, 1000).is_err());
}

#[test]
fn stored_range_applies_alignment_shift() {
    let index_table = vec![entry(9), entry(9 + 100), entry(9 + 100 + 50)];
    let (pos0, len0) = stored_range(2, index_table[0], index_table[1]).unwrap();
    assert_eq!(pos0, 36);
    assert_eq!(len0, 400);
    let (pos1, len1) = stored_range(2, index_table[1], index_table[2]).unwrap();
    assert_eq!(pos1, 436);
    assert_eq!(len1, 200);
}

#[test]
fn write_next_chunk_does_not_balloon_to_the_callers_raw_max_bytes_hint() {
    let sectors = 4u64;
    let source = MemorySource { data: vec![0u8; (sectors * SECTOR_SIZE) as usize] };
    let mut session = CisoSession::open(source, sectors, "game".to_string());
    while !session.hash_next_part().expect("sizing should succeed") {}
    for _ in 0..2 {
        let chunk = session
            .next_chunk(0x7fff_ffff)
            .expect("next_chunk should succeed")
            .expect("sectors remain, so a chunk should be returned");
        assert!(chunk.len() < 1_000_000);
    }
}

fn write_ciso(data: Vec<u8>, sectors: u64, max_bytes: usize) -> (Vec<u8>, Vec<(String, u64)>) {
    let mut session = CisoSession::open(MemorySource { data }, sectors, "game".to_string());
    while !session.hash_next_part().expect("sizing a fixture cannot fail") {}
    let manifest = session.output_manifest();
    let mut out = Vec::new();
    while let Some(chunk) = session.next_chunk(max_bytes).expect("streaming a fixture cannot fail")
    {
        out.extend_from_slice(&chunk);
    }
    assert!(session.is_done());
    assert_eq!(session.total_units(), sectors);
    assert_eq!(session.current_entry_name(), "game.cso");
    (out, manifest)
}

fn valid_ciso_bytes() -> Vec<u8> {
    write_ciso(vec![0u8; 4 * 2048], 4, 1 << 20).0
}

#[test]
fn valid_ciso_bytes_header_parses_with_expected_block_size() {
    let bytes = valid_ciso_bytes();
    let header_buf: [u8; 24] = bytes[0..24].try_into().expect("slice is exactly 24 bytes");
    let header = CSOHeader::deserialize::<()>(&header_buf)
        .ok()
        .expect("a freshly-built CISO header should parse");
    assert_eq!(u64::from(header.block_size), SECTOR_SIZE);
}

#[test]
fn ciso_constants_have_their_documented_values() {
    assert_eq!(ciso_sector_size(), 2048);
    assert_eq!(ciso_file_split_point(), 0xffbf_6000);
    assert_eq!(ciso_file_padding_modulus(), 0x400);
    assert_eq!(ciso_sizing_batch_sectors(), 256);
}

#[test]
fn index_table_is_little_endian_with_the_flag_on_top() {
    let e = IndexTableEntry::new(0x0102_0304, true);
    assert_eq!(e.position(), 0x0102_0304);
    assert!(e.compression_type());
    assert_eq!(serialize_index_table(&[e, entry(1)]), vec![4, 3, 2, 0x81, 1, 0, 0, 0]);
}

#[test]
fn incompressible_ciso_sector_is_stored_as_it_is() {
    let sector = noise(2048, 3);
    let (data, compressed) = compress_sector(&sector);
    assert!(!compressed);
    assert_eq!(data, sector);
    assert_eq!(decode_stored(&data, false).unwrap(), sector);
    assert_eq!(decode_stored(&data[1..], false), Err(CisoError::BadStoredLength));
    assert_eq!(decode_stored(&[1, 2, 3], true), Err(CisoError::BadBlock));
}

#[test]
fn stored_ciso_sector_decodes_with_zeros_after_it() {
    let sector = vec![9u8; 2048];
    let (mut data, compressed) = compress_sector(&sector);
    assert!(compressed);
    data.extend_from_slice(&[0, 0, 0]);
    assert_eq!(decode_stored(&data, true).unwrap(), sector);
}

#[test]
fn written_ciso_image_reads_back() {
    let mut image = Vec::new();
    for i in 0..300u64 {
        if i % 2 == 1 {
            image.extend(noise(2048, i + 1));
        } else {
            image.extend(vec![i as u8; 2048]);
        }
    }
    let (bytes, manifest) = write_ciso(image.clone(), 300, 3000);
    assert_eq!(manifest, vec![("game.cso".to_string(), bytes.len() as u64)]);
    assert_eq!(bytes.len() % 0x400, 0);
    let mut part = MemorySource { data: bytes.clone() };
    let (fields, table) = parse_header_and_index(&mut part).unwrap();
    assert_eq!(fields.uncompressed_size, image.len() as u64);
    assert_eq!(fields.alignment, 2);
    assert_eq!(table.len(), 301);
    let mut source = CisoSource::open(vec![part]).ok().unwrap();
    assert_eq!(source.total_sectors(), 300);
    for s in 0..300u64 {
        let at = s as usize * 2048;
        assert_eq!(source.read_sector(s).unwrap(), &image[at..at + 2048]);
    }
    assert_eq!(source.read_sector(300), Err(CisoError::SectorOutOfRange));
}

#[test]
fn ciso_image_in_two_parts_is_read_across_both() {
    let mut first = Vec::new();
    first.extend_from_slice(b"CISO");
    first.extend_from_slice(&24u32.to_le_bytes());
    first.extend_from_slice(&(3u64 * 2048).to_le_bytes());
    first.extend_from_slice(&2048u32.to_le_bytes());
    first.extend_from_slice(&[2, 2, 0, 0]);
    let table = [entry(10), entry(522), entry(0), entry(512)];
    first.extend_from_slice(&serialize_index_table(&table));
    assert_eq!(first.len(), 40);
    first.extend(vec![1u8; 2048]);
    first.extend(vec![2u8; 2048]);
    let second = vec![3u8; 2048];
    let parts = vec![MemorySource { data: first.clone() }, MemorySource { data: second }];
    let mut source = CisoSource::open(parts).ok().unwrap();
    assert_eq!(source.read_sector(0).unwrap(), vec![1u8; 2048]);
    assert_eq!(source.read_sector(2).unwrap(), vec![3u8; 2048]);
    assert_eq!(source.read_sector(1), Err(CisoError::StoredRangeOverrun));
    let alone = vec![MemorySource { data: first }];
    assert!(matches!(CisoSource::open(alone), Err(CisoError::MissingParts)));
    let none: Vec<MemorySource> = Vec::new();
    assert!(matches!(CisoSource::open(none), Err(CisoError::NoParts)));
}

#[test]
fn bad_ciso_headers_are_refused() {
    let parse = |b: Vec<u8>| parse_header_and_index(&mut MemorySource { data: b });
    let good = valid_ciso_bytes();
    assert!(matches!(parse(good[..20].to_vec()), Err(CisoError::Read(_))));
    let mut b = good.clone();
    b[20] = 1;
    assert!(matches!(parse(b), Err(CisoError::BadHeader(_))));
    let mut b = good.clone();
    b[0] = b'X';
    assert!(matches!(parse(b), Err(CisoError::BadHeader(_))));
    let mut b = good.clone();
    b[17] = 0x10;
    assert!(matches!(parse(b), Err(CisoError::UnsupportedBlockSize(4096))));
    let mut b = good.clone();
    b[12] = 1;
    assert!(matches!(parse(b), Err(CisoError::IndexTooLarge)));
    let mut b = good;
    b[21] = 40;
    let mut source = CisoSource::open(vec![MemorySource { data: b }]).ok().unwrap();
    assert_eq!(source.read_sector(0), Err(CisoError::UnsupportedAlignment(40)));
    assert_eq!(CisoError::NoParts.message(), "ciso: at least one part is required");
}

#[test]
fn ciso_output_waits_for_sizing() {
    let source = MemorySource { data: vec![0u8; 2048] };
    let mut session = CisoSession::open(source, 1, "game".to_string());
    assert!(matches!(session.next_chunk(10), Err(CisoWriteError::SizingUnfinished)));
}

#[test]
fn ciso_image_that_ends_early_cannot_be_sized() {
    let source = MemorySource { data: vec![0u8; 2048] };
    let mut session = CisoSession::open(source, 2, "game".to_string());
    assert!(matches!(session.hash_next_part(), Err(CisoWriteError::Read(_))));
    assert!(!session.is_done());
}

#[test]
fn empty_ciso_image_is_a_padded_header() {
    let (bytes, manifest) = write_ciso(Vec::new(), 0, 100);
    assert_eq!(bytes.len(), 0x400);
    assert_eq!(manifest, vec![("game.cso".to_string(), 0x400)]);
    let source = CisoSource::open(vec![MemorySource { data: bytes }]).ok().unwrap();
    assert_eq!(source.total_sectors(), 0);
}

#[test]
fn small_ciso_image_is_one_padded_file() {
    let image = noise(9 * 2048, 3);
    for max_bytes in [1usize, 100, 5000, 1 << 20] {
        let (bytes, manifest) = write_ciso(image.clone(), 9, max_bytes);
        assert_eq!(manifest, vec![("game.cso".to_string(), bytes.len() as u64)]);
        assert_eq!(bytes.len() % 1024, 0);
        assert_eq!(&bytes[..4], b"CISO");
        assert_eq!(&bytes[8..16], &(9u64 * 2048).to_le_bytes());
        let first = u32::from_le_bytes(bytes[24..28].try_into().unwrap()) & 0x7FFF_FFFF;
        assert_eq!(first as usize * 4, 24 + 4 * 10);
    }
}

#[test]
fn sizing_again_does_not_rewind_a_ciso_stream() {
    let image = noise(9 * 2048, 3);
    let whole = write_ciso(image.clone(), 9, 1 << 20).0;
    let mut session = CisoSession::open(MemorySource { data: image }, 9, "game".to_string());
    let mut out = Vec::new();
    while !session.hash_next_part().unwrap() {}
    while let Some(chunk) = session.next_chunk(1000).unwrap() {
        out.extend_from_slice(&chunk);
        assert!(session.hash_next_part().unwrap());
    }
    assert_eq!(out, whole);
}

/// Fails on one of its reads.
struct FailsOnce {
    data: Vec<u8>,
    reads: usize,
    fails_at: usize,
}

impl ByteSource for FailsOnce {
    fn size(&self) -> u64 {
        self.data.len() as u64
    }

    fn read_at(&mut self, at: u64, n: usize) -> Result<Vec<u8>, ReadError> {
        self.reads += 1;
        let end = at as usize + n;
        if self.reads == self.fails_at || end > self.data.len() {
            return Err(ReadError);
        }
        Ok(self.data[at as usize..end].to_vec())
    }
}

#[test]
fn failed_ciso_batch_is_sized_again_behind_what_was_sized() {
    let image = noise(4 * 2048, 9);
    let source = FailsOnce { data: image.clone(), reads: 0, fails_at: 3 };
    let mut session = CisoSession::open(source, 4, "game".to_string());
    assert!(matches!(session.hash_next_part(), Err(CisoWriteError::Read(_))));
    assert_eq!(session.hash_next_part(), Ok(true));
    assert_eq!(session.output_manifest(), vec![("game.cso".to_string(), 13 * 1024)]);
    let mut out = Vec::new();
    while let Some(chunk) = session.next_chunk(1 << 20).unwrap() {
        out.extend_from_slice(&chunk);
    }
    assert_eq!(out.len(), 9 * 1024);
    let entries: Vec<u32> = out[24..44]
        .chunks(4)
        .map(|b| u32::from_le_bytes(b.try_into().unwrap()))
        .collect();
    assert_eq!(entries, [1035, 1547, 2059, 2571, 3083]);
    assert_eq!(&out[44..44 + 4 * 2048], &image[..]);
}

#[test]
fn failed_read_drops_what_a_ciso_chunk_held() {
    let image = noise(4 * 2048, 9);
    let source = FailsOnce { data: image.clone(), reads: 0, fails_at: 7 };
    let mut session = CisoSession::open(source, 4, "game".to_string());
    assert_eq!(session.hash_next_part(), Ok(true));
    assert_eq!(session.next_chunk(100).unwrap().unwrap().len(), 44);
    assert!(matches!(session.next_chunk(1 << 20), Err(CisoWriteError::Read(_))));
    assert_eq!(session.next_chunk(1 << 20).unwrap().unwrap(), &image[2 * 2048..]);
    assert_eq!(session.next_chunk(1 << 20).unwrap().unwrap().len(), 9 * 1024 - 8236);
    assert!(session.is_done());
}

#[test]
fn ciso_chunks_keep_to_about_their_size() {
    let image = noise(9 * 2048, 3);
    for max_bytes in [1usize, 100, 5000] {
        let source = MemorySource { data: image.clone() };
        let mut session = CisoSession::open(source, 9, "game".to_string());
        while !session.hash_next_part().unwrap() {}
        while let Some(chunk) = session.next_chunk(max_bytes).unwrap() {
            assert!(chunk.len() <= max_bytes + 2050);
        }
    }
}
