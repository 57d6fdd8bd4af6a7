use iso2x::cci::format::{
    cci_file_split_point, cci_sector_size, cci_sizing_batch_sectors, compress_sector_cci,
    compressed_written_len, output_name_for, sector_slot, serialize_cci_header, split_name_for,
    CciHeader, BLOCK_SIZE, HEADER_SIZE, INDEX_ALIGNMENT, SECTOR_SIZE, VERSION,
};
use iso2x::cci::read::{
    decode_slot, parse_header_and_index, validate_index_positions, CciError, CciSource,
};
use iso2x::cci::write::{CciSession, CciWriteError};
use iso2x::source::{
    read_bytes, ByteSource, DecodedImage, ImageSource, MemorySource, ReadError,
};

fn noise(n: usize, seed: u64) -> Vec<u8> {
    let mut x: u64 = seed.wrapping_mul(2).wrapping_add(1);
    let mut v: Vec<u8> = Vec::new();
    while v.len() < n {
        x ^= x << 13;
        x ^= x >> 7;
        x ^= x << 17;
        v.push((x >> 24) as u8);
    }
    v
}

#[test]
fn split_name_is_one_indexed() {
    assert_eq!(split_name_for("game", 0), "game.1.cci");
    assert_eq!(split_name_for("game", 1), "game.2.cci");
    assert_eq!(split_name_for("game", 41), "game.42.cci");
}

#[test]
fn output_name_is_bare_for_single_part_but_numbered_for_multi() {
    assert_eq!(output_name_for("game", 0, 1), "game.cci");
    assert_eq!(output_name_for("game", 0, 2), "game.1.cci");
    assert_eq!(output_name_for("game", 1, 2), "game.2.cci");
    assert_eq!(output_name_for("game", 3, 4), "game.4.cci");
}

#[test]
fn header_round_trips_expected_byte_layout() {
    let header = serialize_cci_header(0x1234_5678_9abc, 0xdead_beef);
    assert_eq!(&header[0..4], b"CCIM");
    assert_eq!(
        u32::from_le_bytes(header[4..8].try_into().unwrap()),
        u32::try_from(HEADER_SIZE).unwrap()
    );
    assert_eq!(u64::from_le_bytes(header[8..16].try_into().unwrap()), 0x1234_5678_9abc);
    assert_eq!(u64::from_le_bytes(header[16..24].try_into().unwrap()), 0xdead_beef);
    assert_eq!(u32::from_le_bytes(header[24..28].try_into().unwrap()), BLOCK_SIZE);
    assert_eq!(header[28], VERSION);
    assert_eq!(header[29], INDEX_ALIGNMENT);
    assert_eq!(header.len(), usize::try_from(HEADER_SIZE).unwrap());
}

#[test]
fn compressed_written_len_rounds_up_to_align_mult() {
    assert_eq!(compressed_written_len(0), (4, 3));
    assert_eq!(compressed_written_len(3), (4, 0));
    assert_eq!(compressed_written_len(4), (8, 3));
    assert_eq!(compressed_written_len(7), (8, 0));
}

#[test]
fn index_entries_stay_back_to_back_with_no_gaps() {
    let index_infos: Vec<(u32, bool)> = vec![(4, false), (8, true), (2048, false)];
    let mut position: u64 = HEADER_SIZE;
    let mut positions = Vec::new();
    for (value, _compressed) in &index_infos {
        positions.push(position);
        position += u64::from(*value);
    }
    assert_eq!(positions, vec![32, 36, 44]);
    assert_eq!(position, 32 + 4 + 8 + 2048);
}

#[test]
fn accepts_monotonic_positions_ending_at_index_offset() {
    let positions = vec![32, 36, 44, 2092];
    assert!(validate_index_positions(&positions, 2092).is_ok());
}

#[test]
fn rejects_non_monotonic_positions() {
    let positions = vec![32, 36, 20, 2092];
    assert!(validate_index_positions(&positions, 2092).is_err());
}

#[test]
fn rejects_positions_not_ending_at_index_offset() {
    let positions = vec![32, 36, 44, 999_999_999];
    assert!(validate_index_positions(&positions, 2092).is_err());
}

#[test]
fn rejects_empty_positions() {
    let positions: Vec<u64> = vec![];
    assert!(validate_index_positions(&positions, 0).is_err());
}

fn valid_cci_bytes() -> Vec<u8> {
    let sector_data_start = HEADER_SIZE;
    let index_offset = sector_data_start + SECTOR_SIZE;
    let mut buf = serialize_cci_header(SECTOR_SIZE, index_offset);
    buf.extend(std::iter::repeat(0u8).take(SECTOR_SIZE as usize));
    let raw0 = u32::try_from(sector_data_start >> INDEX_ALIGNMENT).unwrap();
    let raw1 = u32::try_from(index_offset >> INDEX_ALIGNMENT).unwrap();
    buf.extend_from_slice(&raw0.to_le_bytes());
    buf.extend_from_slice(&raw1.to_le_bytes());
    buf
}

#[test]
fn valid_cci_bytes_parses_header_and_index() {
    let bytes = valid_cci_bytes();
    let header = CciHeader::read(&bytes).expect("a freshly-built header should parse");
    let mut source = MemorySource { data: bytes };
    let (positions, compressed) =
        parse_header_and_index(&mut source).expect("a freshly-built part should parse");
    assert_eq!(header.uncompressed_size, SECTOR_SIZE);
    assert_eq!(positions, vec![HEADER_SIZE, HEADER_SIZE + SECTOR_SIZE]);
    assert_eq!(compressed, vec![false]);
}

fn parse(bytes: Vec<u8>) -> Result<(Vec<u64>, Vec<bool>), CciError> {
    parse_header_and_index(&mut MemorySource { data: bytes })
}

#[test]
fn next_chunk_does_not_balloon_to_the_callers_raw_max_bytes_hint() {
    let sectors = 4u64;
    let source = MemorySource { data: vec![0u8; (sectors * SECTOR_SIZE) as usize] };
    let mut session = CciSession::open(source, sectors, "game".to_string());
    while !session.hash_next_part().expect("sizing should succeed") {}
    let chunk = session
        .next_chunk(0x7fff_ffff)
        .expect("next_chunk should succeed")
        .expect("sectors remain, so a chunk should be returned");
    assert!(chunk.len() < 1_000_000);
    let chunk = session
        .next_chunk(0x7fff_ffff)
        .expect("next_chunk should succeed")
        .expect("sectors remain, so a chunk should be returned");
    assert!(chunk.len() < 1_000_000);
}

#[test]
fn cci_header_fields_round_trip() {
    let header = CciHeader {
        header_size: 7,
        uncompressed_size: u64::MAX,
        index_offset: 1,
        block_size: 0xdead_beef,
        version: 255,
        index_alignment: 0,
    };
    let mut buf = Vec::new();
    header.write(&mut buf);
    assert_eq!(CciHeader::read(&buf), Some(header));
    assert_eq!(CciHeader::read(&buf[..31]), None);
    buf[0] = b'X';
    assert_eq!(CciHeader::read(&buf), None);
}

#[test]
fn cci_constants_have_their_documented_values() {
    assert_eq!(cci_sector_size(), 2048);
    assert_eq!(cci_file_split_point(), 0xFF00_0000);
    assert_eq!(cci_sizing_batch_sectors(), 256);
}

#[test]
fn compressible_cci_sector_is_kept_compressed_and_decodes() {
    let sector = vec![7u8; 2048];
    let (data, compressed) = compress_sector_cci(&sector);
    assert!(compressed);
    assert!(data.len() < 100);
    let (slot, flag) = sector_slot(&sector);
    assert!(flag);
    assert_eq!(slot.len() % 4, 0);
    assert_eq!(decode_slot(&slot, true).unwrap(), sector);
}

#[test]
fn incompressible_cci_sector_is_stored_as_it_is() {
    let sector = noise(2048, 5);
    let (slot, flag) = sector_slot(&sector);
    assert!(!flag);
    assert_eq!(slot, sector);
    assert_eq!(decode_slot(&slot, false).unwrap(), sector);
}

#[test]
fn bad_cci_slots_are_refused() {
    assert_eq!(decode_slot(&[], true), Err(CciError::EmptySlot));
    assert_eq!(decode_slot(&[9, 1, 2, 3], true), Err(CciError::PaddingPastSlot));
    assert_eq!(decode_slot(&[0, 0xFF, 0xFF, 0xFF], true), Err(CciError::BadBlock));
}

#[test]
fn bad_cci_parts_are_refused() {
    let good = valid_cci_bytes();
    assert_eq!(parse(vec![0u8; 10]), Err(CciError::BadHeader));
    let mut b = good.clone();
    b[28] = 2;
    assert_eq!(parse(b), Err(CciError::UnexpectedFields));
    let mut b = good.clone();
    b[16] = 1;
    b[17] = 0;
    assert_eq!(parse(b), Err(CciError::IndexOffsetOutOfRange));
    let mut b = good.clone();
    b.push(0);
    assert_eq!(parse(b), Err(CciError::RaggedIndex));
    let mut b = good.clone();
    let n = b.len();
    b[n - 8] = 0xFF;
    b[n - 7] = 0xFF;
    assert_eq!(parse(b), Err(CciError::PositionsDecrease));
    let mut b = good.clone();
    b[n - 3] = 0x0F;
    assert_eq!(parse(b), Err(CciError::IndexEndMismatch));
    let mut b = good.clone();
    b[9] = 0x10;
    assert_eq!(parse(b), Err(CciError::SizeMismatch));
    assert_eq!(CciError::SizeMismatch.message(), "cci: uncompressed size doesn't match the index");
}

fn write_cci(data: Vec<u8>, sectors: u64, max_bytes: usize) -> (Vec<u8>, Vec<(String, u64)>) {
    let mut session = CciSession::open(MemorySource { data }, sectors, "game".to_string());
    assert!(session.output_manifest().is_empty());
    while !session.hash_next_part().unwrap() {}
    let manifest = session.output_manifest();
    let mut out = Vec::new();
    while let Some(chunk) = session.next_chunk(max_bytes).unwrap() {
        out.extend_from_slice(&chunk);
    }
    assert!(session.is_done());
    assert_eq!(session.total_units(), sectors);
    assert_eq!(session.current_entry_name(), "game.cci");
    (out, manifest)
}

#[test]
fn written_cci_image_reads_back() {
    let mut image = Vec::new();
    for i in 0..600u64 {
        if i % 3 == 0 {
            image.extend(noise(2048, i + 1));
        } else {
            image.extend(vec![i as u8; 2048]);
        }
    }
    let (bytes, manifest) = write_cci(image.clone(), 600, 5000);
    assert_eq!(manifest, vec![("game.cci".to_string(), bytes.len() as u64)]);
    let mut source = CciSource::open(vec![MemorySource { data: bytes }]).ok().unwrap();
    assert_eq!(source.total_sectors(), 600);
    for s in 0..600u64 {
        let at = s as usize * 2048;
        assert_eq!(source.read_sector(s).unwrap(), &image[at..at + 2048]);
    }
    assert_eq!(source.read_sector(600), Err(CciError::SectorOutOfRange));
    assert_eq!(read_bytes(&mut source, 3000, 5000).unwrap(), &image[3000..8000]);
    let mut flat = DecodedImage { image: source };
    assert_eq!(flat.size(), image.len() as u64);
    assert_eq!(flat.read_at(2047, 2).unwrap(), &image[2047..2049]);
    assert!(flat.read_at(image.len() as u64, 1).is_err());
}

#[test]
fn cci_image_in_two_parts_is_read_across_both() {
    let (a, _) = write_cci(vec![1u8; 4096], 2, 1 << 20);
    let (b, _) = write_cci(vec![2u8; 2048], 1, 1 << 20);
    let parts = vec![MemorySource { data: a }, MemorySource { data: b }];
    let mut source = CciSource::open(parts).ok().unwrap();
    assert_eq!(source.total_sectors(), 3);
    assert_eq!(source.read_sector(1).unwrap(), vec![1u8; 2048]);
    assert_eq!(source.read_sector(2).unwrap(), vec![2u8; 2048]);
    assert_eq!(source.locate(2).unwrap(), (1, 0));
    let none: Vec<MemorySource> = Vec::new();
    assert!(matches!(CciSource::open(none), Err(CciError::NoParts)));
}

#[test]
fn cci_output_waits_for_sizing() {
    let source = MemorySource { data: vec![0u8; 2048] };
    let mut session = CciSession::open(source, 1, "game".to_string());
    assert!(matches!(session.next_chunk(10), Err(CciWriteError::SizingUnfinished)));
    assert_eq!(
        CciWriteError::SizingUnfinished.message(),
        "cci: next_chunk() called before hash_next_part() finished sizing"
    );
}

#[test]
fn cci_image_that_ends_early_cannot_be_sized() {
    let source = MemorySource { data: vec![0u8; 2048] };
    let mut session = CciSession::open(source, 2, "game".to_string());
    assert!(matches!(session.hash_next_part(), Err(CciWriteError::Read(_))));
    assert!(!session.is_done());
}

#[test]
fn sizing_again_does_not_rewind_a_cci_stream() {
    let image = noise(9 * 2048, 3);
    let (whole, manifest) = write_cci(image.clone(), 9, 1 << 20);
    assert_eq!(manifest, vec![("game.cci".to_string(), whole.len() as u64)]);
    let mut session = CciSession::open(MemorySource { data: image }, 9, "game".to_string());
    let mut out = Vec::new();
    while !session.hash_next_part().unwrap() {}
    while let Some(chunk) = session.next_chunk(1000).unwrap() {
        assert_eq!(session.current_entry_name(), manifest[0].0);
        out.extend_from_slice(&chunk);
        assert!(session.hash_next_part().unwrap());
    }
    assert_eq!(out, whole);
}

/// Fails on one of its reads.
struct FailsOnce {
    data: Vec<u8>,
    reads: usize,
    fails_at: usize,
}

impl ByteSource for FailsOnce {
    fn size(&self) -> u64 {
        self.data.len() as u64
    }

    fn read_at(&mut self, at: u64, n: usize) -> Result<Vec<u8>, ReadError> {
        self.reads += 1;
        let end = at as usize + n;
        if self.reads == self.fails_at || end > self.data.len() {
            return Err(ReadError);
        }
        Ok(self.data[at as usize..end].to_vec())
    }
}

#[test]
fn failed_cci_batch_is_sized_again_behind_what_was_sized() {
    let image = noise(4 * 2048, 9);
    let source = FailsOnce { data: image, reads: 0, fails_at: 3 };
    let mut session = CciSession::open(source, 4, "game".to_string());
    assert!(matches!(session.hash_next_part(), Err(CciWriteError::Read(_))));
    assert!(matches!(session.next_chunk(10), Err(CciWriteError::SizingUnfinished)));
    assert_eq!(session.hash_next_part(), Ok(true));
    assert_eq!(session.output_manifest(), vec![("game.cci".to_string(), 32 + 6 * 2048 + 28)]);
    let head = session.next_chunk(100).unwrap().unwrap();
    assert_eq!(head.len(), 32);
    assert_eq!(&head[8..16], &(6u64 * 2048).to_le_bytes());
    assert!(matches!(session.next_chunk(1 << 20), Err(CciWriteError::Read(_))));
}

#[test]
fn failed_read_drops_what_a_cci_chunk_held() {
    let image = noise(4 * 2048, 9);
    let source = FailsOnce { data: image.clone(), reads: 0, fails_at: 7 };
    let mut session = CciSession::open(source, 4, "game".to_string());
    assert_eq!(session.hash_next_part(), Ok(true));
    assert_eq!(session.next_chunk(100).unwrap().unwrap().len(), 32);
    assert!(matches!(session.next_chunk(1 << 20), Err(CciWriteError::Read(_))));
    assert_eq!(session.next_chunk(1 << 20).unwrap().unwrap(), &image[2 * 2048..]);
    assert_eq!(session.next_chunk(1 << 20).unwrap().unwrap().len(), 20);
    assert!(session.is_done());
}
