use iso2x::source::{FileSource, ImageFile, ImageFiles, MemorySource};
use iso2x::stfs::format::{
    stfs_file_entry_name_len_offset, stfs_file_entry_path_indicator_offset, stfs_file_entry_size,
    top_level_for, ContentType, Level,
};
use iso2x::stfs::layout::PlanError;
use iso2x::stfs::listing::{read_int24_be, read_int24_le, StfsReadError};
use iso2x::stfs::plan::StfsLayout;
use iso2x::stfs::read::StfsReader;
use iso2x::stfs::write::{
    resolve_content_type, IdentityOverrides, SourceHeader, StfsWriteError, StfsWriteSession,
};

fn file_set(files: &[(&str, Vec<u8>)]) -> ImageFiles<MemorySource> {
    let mut data = Vec::new();
    let mut list = Vec::new();
    for (path, contents) in files {
        list.push(ImageFile {
            path: path.to_string(),
            offset: data.len() as u64,
            size: contents.len() as u64,
        });
        data.extend_from_slice(contents);
    }
    ImageFiles::new(MemorySource { data }, list)
}

fn plain_source() -> SourceHeader {
    SourceHeader {
        content_type: None,
        raw_content_type: None,
        console_id: None,
        profile_id: None,
        device_id: None,
        online_creator: None,
        display_name: None,
        avatar_item_metadata: None,
        video_metadata: None,
        installer_metadata: None,
        license_entries: None,
    }
}

fn no_identity() -> IdentityOverrides {
    IdentityOverrides { console_id: None, profile_id: None, device_id: None, online_creator: None }
}

fn open_session(
    files: &[(&str, Vec<u8>)],
    signed: bool,
) -> Result<StfsWriteSession<ImageFiles<MemorySource>>, StfsWriteError> {
    StfsWriteSession::open(
        file_set(files),
        Some(ContentType::GamesOnDemand),
        Some("A Name".to_string()),
        Some(0x4D53_07D1),
        no_identity(),
        signed,
        plain_source(),
        None,
        true,
        None,
        0x5555_AAAA,
    )
}

fn write_package(files: &[(&str, Vec<u8>)], signed: bool) -> Vec<u8> {
    let mut session = open_session(files, signed).ok().unwrap();
    if signed {
        assert!(matches!(session.next_chunk(1), Err(StfsWriteError::HashingUnfinished)));
    }
    while !session.hash_next_block().ok().unwrap() {}
    let manifest = session.output_manifest();
    let mut out = Vec::new();
    while let Some(chunk) = session.next_chunk(1).ok().unwrap() {
        out.extend_from_slice(&chunk);
    }
    assert!(session.is_done());
    assert_eq!(manifest, vec![("4D5307D1".to_string(), out.len() as u64)]);
    out
}

fn round_trip(files: &[(&str, Vec<u8>)], signed: bool) {
    let bytes = write_package(files, signed);
    let mut reader = StfsReader::open(MemorySource { data: bytes }).ok().unwrap();
    assert_eq!(reader.content_type, Some(ContentType::GamesOnDemand));
    assert_eq!(reader.display_name.as_deref(), Some("A Name"));
    let entries = reader.file_entries();
    let expected: Vec<(String, u64)> =
        files.iter().map(|(p, c)| (p.to_string(), c.len() as u64)).collect();
    assert_eq!(entries, expected);
    for (i, (_, contents)) in files.iter().enumerate() {
        let got = reader.read_file_range(i, 0, contents.len()).ok().unwrap();
        assert_eq!(&got, contents);
        if contents.len() > 5000 {
            let got = reader.read_file_range(i, 4090, 20).ok().unwrap();
            assert_eq!(got, &contents[4090..4110]);
        }
    }
}

fn sample_files() -> Vec<(&'static str, Vec<u8>)> {
    vec![
        ("default.xex", (0..10_000u32).map(|i| (i % 251) as u8).collect()),
        ("sub/empty.bin", Vec::new()),
        ("sub/deep/a.bin", vec![3u8; 0x1000]),
        ("caf\u{e9}.txt", b"x".to_vec()),
    ]
}

#[test]
fn unsigned_package_reads_back() {
    round_trip(&sample_files(), false);
}

#[test]
fn signed_package_reads_back() {
    round_trip(&sample_files(), true);
}

#[test]
fn package_with_a_level_one_table_reads_back() {
    let big: Vec<u8> = (0..0xC0u32 * 0x1000).map(|i| (i / 0x1000) as u8).collect();
    let files = vec![("big.bin", big), ("tail.bin", vec![9u8; 10])];
    round_trip(&files, false);
    round_trip(&files, true);
}

#[test]
fn package_reads_past_the_end_are_refused() {
    let bytes = write_package(&sample_files(), false);
    let mut reader = StfsReader::open(MemorySource { data: bytes }).ok().unwrap();
    assert!(matches!(reader.read_file_range(0, 9_999, 2), Err(StfsReadError::PastEndOfFile)));
    assert!(matches!(reader.read_file_range(9, 0, 0), Err(StfsReadError::NoSuchFile)));
}

#[test]
fn damaged_packages_are_refused() {
    let good = write_package(&sample_files(), false);
    let open = |b: Vec<u8>| match StfsReader::open(MemorySource { data: b }) {
        Ok(_) => None,
        Err(e) => Some(e),
    };
    let edit = |at: usize, v: u8| {
        let mut b = good.clone();
        b[at] = v;
        b
    };
    assert_eq!(open(good.clone()), None);
    assert_eq!(open(vec![0u8; 16]), Some(StfsReadError::TooSmall));
    assert_eq!(open(edit(0, b'X')), Some(StfsReadError::NotAPackage));
    assert_eq!(open(edit(0x398, 0)), Some(StfsReadError::NoAllocatedBlocks));
    assert_eq!(open(edit(0x3AC, 1)), Some(StfsReadError::NotStfsShaped(1)));
    assert_eq!(open(edit(0x395, 0xFF)), Some(StfsReadError::InvalidBlockCount));
    assert!(matches!(open(edit(0x37E, 0x70)), Some(StfsReadError::IllegalBlock)));
    assert!(matches!(open(good[..0xA010].to_vec()), Some(StfsReadError::Read(_))));
    assert_eq!(StfsReadError::TooSmall.message(), "stfs: file too small to contain a header");
}

#[test]
fn bootable_packages_need_an_executable_or_a_title_id() {
    let r = StfsWriteSession::open(
        file_set(&sample_files()),
        Some(ContentType::GamesOnDemand),
        None,
        None,
        no_identity(),
        false,
        plain_source(),
        None,
        true,
        None,
        0,
    );
    assert!(matches!(r, Err(StfsWriteError::NoLaunchExecutable)));
}

#[test]
fn identity_is_taken_from_overrides_then_from_the_source() {
    let mut original = plain_source();
    original.console_id = Some([1, 2, 3, 4, 5]);
    original.profile_id = Some([9; 8]);
    let mut identity = no_identity();
    identity.profile_id = Some([7; 8]);
    let session = StfsWriteSession::open(
        file_set(&sample_files()),
        None,
        None,
        Some(1),
        identity,
        false,
        original,
        None,
        false,
        Some("Listed".to_string()),
        0,
    );
    let mut session = session.ok().unwrap();
    let header = session.next_chunk(0).ok().unwrap().unwrap();
    assert_eq!(&header[0x36C..0x371], &[1, 2, 3, 4, 5]);
    assert_eq!(&header[0x371..0x379], &[7; 8]);
    assert_eq!(&header[0x3FD..0x411], &[0; 20]);
    assert_eq!(&header[0x344..0x348], &0x7000u32.to_be_bytes());
    assert_eq!(&header[0x411..0x415], &[0, b'L', 0, b'i']);
}

#[test]
fn content_type_is_resolved_in_order() {
    let asked = Some(ContentType::Video);
    let original = Some(ContentType::AvatarItem);
    assert_eq!(resolve_content_type(asked, original, None, None), asked);
    assert_eq!(resolve_content_type(None, original, None, None), original);
    assert_eq!(resolve_content_type(None, None, None, None), None);
}

#[test]
fn plans_that_cannot_be_made_are_refused() {
    let plan = |files: &[(&str, u64)]| {
        let list: Vec<(String, u64)> = files.iter().map(|(p, n)| (p.to_string(), *n)).collect();
        match StfsLayout::plan(&list, 0, false) {
            Ok(_) => None,
            Err(e) => Some(e),
        }
    };
    assert_eq!(plan(&[]), Some(PlanError::NoFiles));
    assert_eq!(plan(&[("/", 1)]), Some(PlanError::EmptyPath));
    assert_eq!(plan(&[("a", 0x1_0000_0000)]), Some(PlanError::FileTooLarge));
    let many: Vec<(String, u64)> = (0..0xFFFF).map(|i| (format!("f{i}"), 0)).collect();
    assert!(matches!(StfsLayout::plan(&many[..300], 0, false), Ok(_)));
    let huge: Vec<(&str, u64)> =
        vec![("a", 0xFFFF_FFFF), ("b", 0xFFFF_FFFF), ("c", 0xFFFF_FFFF), ("d", 0xFFFF_FFFF)];
    assert_eq!(plan(&huge), None);
    let more: Vec<(&str, u64)> =
        [huge.clone(), vec![("e", 0xFFFF_FFFF), ("f", 0xFFFF_FFFF)]].concat();
    assert_eq!(plan(&more), Some(PlanError::TooManyBlocks));
    assert_eq!(PlanError::NoFiles.message(), "stfs: at least one file is required");
}

#[test]
fn levels_change_at_their_capacities() {
    assert_eq!(top_level_for(0xAA), Some(Level::Zero));
    assert_eq!(top_level_for(0xAB), Some(Level::One));
    assert_eq!(top_level_for(0x70E4), Some(Level::One));
    assert_eq!(top_level_for(0x70E5), Some(Level::Two));
    assert_eq!(top_level_for(0x4A_F768), Some(Level::Two));
    assert_eq!(top_level_for(0x4A_F769), None);
}

#[test]
fn three_byte_integers_are_read_in_both_orders() {
    assert_eq!(read_int24_be(&[1, 2, 3]), 0x01_0203);
    assert_eq!(read_int24_le(&[1, 2, 3]), 0x03_0201);
}

#[test]
fn listing_constants_have_their_documented_values() {
    assert_eq!(stfs_file_entry_size(), 0x40);
    assert_eq!(stfs_file_entry_name_len_offset(), 0x28);
    assert_eq!(stfs_file_entry_path_indicator_offset(), 0x32);
    let files = file_set(&[("a", vec![1u8; 2])]);
    assert_eq!(files.file_entries(), vec![("a".to_string(), 2)]);
}

#[test]
fn files_are_listed_in_the_order_they_were_given() {
    let files = vec![
        ("z/last.bin", vec![1u8; 5000]),
        ("default.xex", vec![2u8; 3]),
        ("z/first.bin", vec![3u8; 4096]),
        ("a/b/c.bin", Vec::new()),
        ("z/y/x.bin", vec![4u8; 1]),
    ];
    round_trip(&files, false);
}

#[test]
fn package_is_one_file_that_names_its_inner_files() {
    let files = vec![("default.xex", vec![2u8; 5000]), ("b.bin", vec![3u8; 10])];
    let mut session = open_session(&files, false).ok().unwrap();
    let mut names = Vec::new();
    while let Some(_) = session.next_chunk(1).ok().unwrap() {
        assert_eq!(session.current_entry_name(), None);
        if let Some(name) = session.current_file_name() {
            names.push(name);
        }
    }
    assert_eq!(names, ["default.xex", "default.xex", "b.bin"]);
}
