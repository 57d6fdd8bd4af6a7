use iso2x::god::format::mht_size;
use iso2x::god::hash_list::HashList;
use iso2x::god::read::{GodReadError, GodSource};
use iso2x::god::write::{
    chain_mht_digest, resolve_god_content_type, GodChunk, GodSession, GodWriteError,
};
use iso2x::source::{ImageSource, MemorySource};
use iso2x::stfs::format::ContentType;
use iso2x::stfs::header::TitleExecutionInfo;
use sha1::Digest;

fn round_trips_at(hash_count: usize) {
    let mut list = HashList::new();
    for i in 0..hash_count {
        let mut hash = [0u8; 20];
        hash[0] = (i % 256) as u8;
        hash[1] = (i / 256) as u8;
        hash[19] = 0xAA;
        list.add_hash(&hash);
    }

    let mut buf = Vec::new();
    list.write(&mut buf);

    let parsed = HashList::read(buf.as_slice()).expect("read must succeed");
    assert_eq!(parsed.len, hash_count * 20, "hash_count = {hash_count}");
    assert_eq!(parsed.buffer, list.buffer, "hash_count = {hash_count}");
}

#[test]
fn round_trips_empty() {
    round_trips_at(0);
}

#[test]
fn round_trips_single_hash() {
    round_trips_at(1);
}

#[test]
fn round_trips_one_below_capacity() {
    round_trips_at(203);
}

#[test]
fn round_trips_at_full_capacity() {
    round_trips_at(204);
}

fn info() -> TitleExecutionInfo {
    TitleExecutionInfo {
        media_id: 0xAABB_CCDD,
        version: 0,
        base_version: 0,
        title_id: 0x4D53_07D1,
        platform: 2,
        executable_type: 1,
        disc_number: 1,
        disc_count: 1,
        save_game_id: 0,
    }
}

fn sha1_hex(data: &[u8]) -> [u8; 20] {
    sha1::Sha1::digest(data).into()
}

#[test]
fn hash_list_digests_what_it_holds() {
    let mut list = HashList::new();
    list.add_block_hash(b"block");
    assert_eq!(&list.bytes()[..20], &sha1_hex(b"block"));
    assert_eq!(list.digest(), sha1_hex(&list.bytes()[..]));
    assert!(HashList::read(&[0u8; 4095]).is_err());
    assert_eq!(mht_size(), 4096);
}

#[test]
fn chained_digest_is_of_the_list_with_the_next_digest_appended() {
    let mut list = HashList::new();
    list.add_block_hash(b"one");
    let next = sha1_hex(b"next");
    let got = chain_mht_digest(&list.bytes()[..], &next).unwrap();
    let mut expected = list.bytes().to_vec();
    expected[20..40].copy_from_slice(&next);
    assert_eq!(got, sha1_hex(&expected));
    assert_eq!(chain_mht_digest(&[0u8; 10], &next), Err(GodWriteError::BadHashList));
    let short = chain_mht_digest(&list.bytes()[..], &next[..19]);
    assert_eq!(short, Err(GodWriteError::BadDigestLength));
}

#[test]
fn only_games_on_demand_can_be_signed() {
    assert_eq!(
        resolve_god_content_type(true, ContentType::GamesOnDemand),
        Ok(ContentType::InstalledGame)
    );
    assert_eq!(
        resolve_god_content_type(true, ContentType::XboxOriginal),
        Err(GodWriteError::NotSignable(0x5000))
    );
    assert_eq!(
        resolve_god_content_type(false, ContentType::XboxOriginal),
        Ok(ContentType::XboxOriginal)
    );
}

#[test]
fn written_god_package_reads_back() {
    let size = 0xCC * 0x1000 + 3 * 0x1000;
    let image: Vec<u8> = (0..size).map(|i: usize| (i / 2048 * 7 + i % 13) as u8).collect();
    let source = MemorySource { data: image.clone() };
    let opened = GodSession::open(
        source,
        size as u64,
        info(),
        ContentType::GamesOnDemand,
        Some("Title".to_string()),
        false,
        None,
    );
    let mut session = opened.ok().unwrap();
    assert!(matches!(session.next_chunk(1), Err(GodWriteError::HashingUnfinished)));
    while !session.hash_next_part().ok().unwrap() {}
    let manifest = session.output_manifest(0xB000);
    assert_eq!(manifest.len(), 2);
    assert_eq!(manifest[0].0, "4D5307D1/00007000/AABBCCDD.data/Data0000");
    assert_eq!(manifest[1], ("4D5307D1/00007000/AABBCCDD".to_string(), 0xB000));
    let mut part = Vec::new();
    let mut header = None;
    while let Some(chunk) = session.next_chunk(0).ok().unwrap() {
        match chunk {
            GodChunk::Data(d) => part.extend_from_slice(&d),
            GodChunk::Header(h) => header = Some(h),
        }
    }
    assert!(session.is_done());
    assert_eq!(session.total_units(), 1);
    assert_eq!(part.len() as u64, manifest[0].1);
    assert_eq!(part.len(), size + 3 * 0x1000);
    let header = header.unwrap();
    assert_eq!(header.part_count, 1);
    assert_eq!(header.block_count, 0xCF);
    assert_eq!(header.mht_hash, sha1_hex(&part[..0x1000]));
    assert_eq!(&part[0..20], &sha1_hex(&part[0x1000..0x2000]));
    assert_eq!(&part[0x1000..0x1014], &sha1_hex(&part[0x2000..0x3000]));
    let mut reader = GodSource::open(vec![MemorySource { data: part }], None).ok().unwrap();
    assert_eq!(reader.total_sectors(), (size / 2048) as u64);
    for s in [0usize, 1, 0xCC * 2 - 1, 0xCC * 2, size / 2048 - 1] {
        assert_eq!(reader.read_sector(s as u64).ok().unwrap(), &image[s * 2048..s * 2048 + 2048]);
    }
    assert!(matches!(reader.read_sector(0xa1c4 * 2), Err(GodReadError::MissingPart)));
}

#[test]
fn god_sources_need_parts_and_a_good_header() {
    let none: Vec<MemorySource> = Vec::new();
    assert!(matches!(GodSource::open(none, None), Err(GodReadError::NoParts)));
    let small = vec![MemorySource { data: vec![0u8; 100] }];
    assert!(matches!(GodSource::open(small, None), Err(GodReadError::LastPartTooSmall)));
    let part = vec![MemorySource { data: vec![0u8; 0x3000] }];
    let header = MemorySource { data: vec![0u8; 0x1000] };
    assert!(matches!(GodSource::open(part, Some(header)), Err(GodReadError::BadHeader(_))));
}

#[test]
fn god_image_that_ends_early_gives_what_it_holds() {
    let source = MemorySource { data: vec![7u8; 0x1800] };
    let opened = GodSession::open(
        source,
        0x3000,
        info(),
        ContentType::GamesOnDemand,
        None,
        false,
        Some([3; 20]),
    );
    let mut session = opened.ok().unwrap();
    while !session.hash_next_part().ok().unwrap() {}
    assert_eq!(session.output_manifest(1)[0].1, 0x1000 + 0x1000 + 0x3000);
    let mut part = Vec::new();
    let mut header = None;
    while let Some(chunk) = session.next_chunk(0).ok().unwrap() {
        match chunk {
            GodChunk::Data(d) => {
                part.extend_from_slice(&d);
                let name = session.current_entry_name().unwrap();
                assert_eq!(name, "4D5307D1/00007000/AABBCCDD.data/Data0000");
            }
            GodChunk::Header(h) => header = Some(h),
        }
    }
    assert_eq!(part.len(), 0x1000 + 0x1000 + 0x1800);
    let header = header.unwrap();
    assert_eq!(header.block_count, 3);
    assert_eq!(header.parts_size, part.len() as u64);
    assert_eq!(header.device_id, Some([3; 20]));
    assert_eq!(session.current_entry_name(), Some("4D5307D1/00007000/AABBCCDD"));
}

#[test]
fn signing_another_content_type_is_refused() {
    let source = MemorySource { data: vec![0u8; 0x1000] };
    let r = GodSession::open(source, 1, info(), ContentType::XboxOriginal, None, true, None);
    assert!(matches!(r, Err(GodWriteError::NotSignable(0x5000))));
}

#[test]
fn images_that_cannot_be_counted_are_refused() {
    let open = |size: u64, signed: bool| {
        let source = MemorySource { data: vec![0u8; 0x1000] };
        GodSession::open(source, size, info(), ContentType::XboxOriginal, None, signed, None)
    };
    assert!(matches!(open((1 << 44) + 1, false), Err(GodWriteError::ImageTooLarge)));
    assert!(matches!(open(u64::MAX, false), Err(GodWriteError::TooManyParts)));
    assert!(matches!(open(u64::MAX, true), Err(GodWriteError::NotSignable(0x5000))));
}
