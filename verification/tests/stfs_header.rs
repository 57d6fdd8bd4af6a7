use iso2x::stfs::format::{
    AvatarItemMetadata, InstallerMetadata, InstallerVersion, Level, ProgressCacheKind,
    VideoMetadata, AVATAR_ITEM_METADATA_LEN, BLOCK_SIZE, INSTALLER_CAB_RESUME_DATA_LEN,
    INSTALLER_TRAILER_GATE_LEN, OFF_AVATAR_ITEM_METADATA, OFF_CONSOLE_ID, OFF_DEVICE_ID,
    OFF_HEADER_SIZE, OFF_INSTALLER_METADATA, OFF_ONLINE_CREATOR, OFF_PROFILE_ID,
    OFF_VIDEO_METADATA, OFF_VOLUME_DESCRIPTOR, VIDEO_METADATA_LEN,
};
use iso2x::stfs::header::{
    build_header, HeaderIdentity, TitleExecutionInfo, DEFAULT_BLOCK_SEPARATION,
};
use iso2x::stfs::layout::DEFAULT_HEADER_SIZE;
use iso2x::stfs::plan::{PhysicalStep, StfsLayout};

const INSTALLER_METADATA: u64 = OFF_INSTALLER_METADATA as u64;
const VIDEO_METADATA: u64 = OFF_VIDEO_METADATA as u64;
const AVATAR_ITEM_METADATA: u64 = OFF_AVATAR_ITEM_METADATA as u64;
const HEADER_SIZE: u64 = OFF_HEADER_SIZE as u64;
const CONSOLE_ID: u64 = OFF_CONSOLE_ID as u64;
const PROFILE_ID: u64 = OFF_PROFILE_ID as u64;
const VOLUME_DESCRIPTOR: u64 = OFF_VOLUME_DESCRIPTOR as u64;
const ONLINE_CREATOR: u64 = OFF_ONLINE_CREATOR as u64;
const DEVICE_ID: u64 = OFF_DEVICE_ID as u64;

fn level_two_layout() -> StfsLayout {
    const TARGET_DATA_BLOCKS: u64 = 0x70E4 + 1;
    let files = vec![(
        "big.bin".to_string(),
        TARGET_DATA_BLOCKS * BLOCK_SIZE,
    )];
    let layout = StfsLayout::plan(&files, DEFAULT_BLOCK_SEPARATION, false)
        .expect("level-two layout should plan fine");
    assert_eq!(
        layout.top_level,
        Level::Two,
        "test setup should force Level::Two"
    );
    layout
}

#[test]
fn second_top_groups_level1_table_is_not_at_the_first_groups_position() {
    let layout = level_two_layout();
    let first_group_pos = layout.map.compute_level1_backing_hash_block_number(0);
    let second_group_pos = layout.map.compute_level1_backing_hash_block_number(0x70E4);
    assert_eq!(first_group_pos, 0xAC);
    assert_ne!(second_group_pos, first_group_pos);
}

#[test]
fn step_physical_block_places_a_hash_table_at_the_second_groups_level1_position() {
    let layout = level_two_layout();
    let expected_pos = layout.map.compute_level1_backing_hash_block_number(0x70E4);

    let mut physical_cursor = 0u64;
    let mut block_num = 0u32;
    let mut step_at_expected_pos = None;
    while step_at_expected_pos.is_none() {
        let cursor_before = physical_cursor;
        match layout.step_physical_block(&mut physical_cursor, &mut block_num) {
            None => break,
            Some(step) if cursor_before == expected_pos => {
                step_at_expected_pos = Some(step);
            }
            Some(_) => {}
        }
    }
    assert!(
        matches!(
            step_at_expected_pos,
            Some(PhysicalStep::HashUpperLevel { .. })
        ),
        "expected a HashUpperLevel step at the second top-group's \
         level-1 table position ({expected_pos})"
    );
}

fn small_layout() -> StfsLayout {
    let files = vec![("default.xex".to_string(), 100u64)];
    StfsLayout::plan(&files, DEFAULT_BLOCK_SEPARATION, false)
        .expect("tiny layout should plan fine")
}

fn small_layout_with_installer_trailer() -> StfsLayout {
    let files = vec![("default.xex".to_string(), 100u64)];
    StfsLayout::plan(&files, DEFAULT_BLOCK_SEPARATION, true)
        .expect("tiny layout with installer trailer should plan fine")
}

fn zero_identity(device_id: &[u8; 20]) -> HeaderIdentity<'_> {
    HeaderIdentity {
        console_id: [0u8; 5],
        profile_id: [0u8; 8],
        device_id,
        online_creator: [0u8; 8],
    }
}

#[test]
fn header_length_is_padded_to_first_hash_table_address() {
    let layout = small_layout();
    let header = build_header(
        &layout,
        0,
        0,
        None,
        None,
        None,
        None,
        None,
        zero_identity(&[0u8; 20]),
        &[0u8; 20],
    );
    assert_eq!(header.len() as u64, layout.first_hash_table_address);
}

#[test]
fn execution_info_fields_are_written_at_their_header_offsets() {
    let layout = small_layout();
    let info = TitleExecutionInfo {
        media_id: 0x1122_3344,
        version: 0,
        base_version: 0,
        title_id: 0x5555_6666,
        platform: 2,
        executable_type: 1,
        disc_number: 1,
        disc_count: 1,
        save_game_id: 0x7788_99AA,
    };
    let header = build_header(
        &layout,
        0,
        info.title_id,
        Some(&info),
        None,
        None,
        None,
        None,
        zero_identity(&[0u8; 20]),
        &[0u8; 20],
    );
    assert_eq!(&header[0x354..0x358], &info.media_id.to_be_bytes());
    assert_eq!(&header[0x360..0x364], &info.title_id.to_be_bytes());
    assert_eq!(header[0x364], info.platform);
    assert_eq!(header[0x365], info.executable_type);
    assert_eq!(header[0x366], info.disc_number);
    assert_eq!(header[0x367], info.disc_count);
    assert_eq!(&header[0x368..0x36C], &info.save_game_id.to_be_bytes());
}

#[test]
fn header_length_is_not_the_raw_unpadded_header_size() {
    let layout = small_layout();
    let header = build_header(
        &layout,
        0,
        0,
        None,
        None,
        None,
        None,
        None,
        zero_identity(&[0u8; 20]),
        &[0u8; 20],
    );
    assert_ne!(header.len(), DEFAULT_HEADER_SIZE as usize);
    assert!(header.len() as u32 > DEFAULT_HEADER_SIZE);
}

#[test]
fn padding_bytes_past_metadata_are_zeroed() {
    let layout = small_layout();
    let header = build_header(
        &layout,
        0,
        0,
        None,
        None,
        None,
        None,
        None,
        zero_identity(&[0u8; 20]),
        &[0u8; 20],
    );
    let padding = &header[DEFAULT_HEADER_SIZE as usize..];
    assert!(padding.iter().all(|&b| b == 0));
}

#[test]
fn total_output_size_uses_padded_header_length() {
    let layout = small_layout();
    let expected =
        layout.first_hash_table_address + layout.total_physical_blocks() * BLOCK_SIZE;
    assert_eq!(layout.total_output_size(), expected);
    let unpadded_total =
        u64::from(DEFAULT_HEADER_SIZE) + layout.total_physical_blocks() * BLOCK_SIZE;
    assert_ne!(layout.total_output_size(), unpadded_total);
}

#[test]
fn header_size_field_is_written_and_resolves_to_the_same_first_hash_table_address() {
    let layout = small_layout();
    let header = build_header(
        &layout,
        0,
        0,
        None,
        None,
        None,
        None,
        None,
        zero_identity(&[0u8; 20]),
        &[0u8; 20],
    );

    let header_size_off = usize::try_from(HEADER_SIZE).unwrap();
    let written = u32::from_be_bytes(
        header[header_size_off..header_size_off + 4]
            .try_into()
            .unwrap(),
    );
    assert_eq!(
        written, DEFAULT_HEADER_SIZE,
        "header_size field must be written, not left zeroed"
    );

    let resolved_first_hash_table_address = u64::from((written + 0xFFF) & 0xFFFF_F000);
    assert_eq!(
        resolved_first_hash_table_address,
        layout.first_hash_table_address
    );
}

#[test]
fn magic_and_metadata_survive_the_padded_buffer() {
    let layout = small_layout();
    let header = build_header(
        &layout,
        0x7000,
        0x4141_4141,
        None,
        Some("Test"),
        None,
        None,
        None,
        zero_identity(&[0u8; 20]),
        &[0u8; 20],
    );
    assert_eq!(&header[0..4], b"CON ");
    assert_eq!(
        &header[0x344..0x344 + 4],
        &0x7000u32.to_be_bytes()
    );
    assert_eq!(
        &header[0x360..0x360 + 4],
        &0x4141_4141u32.to_be_bytes()
    );
}

#[test]
fn console_profile_device_id_are_written_at_their_header_offsets() {
    let layout = small_layout();
    let console_id = [1u8, 2, 3, 4, 5];
    let profile_id = [6u8, 7, 8, 9, 10, 11, 12, 13];
    let device_id: [u8; 20] = std::array::from_fn(|i| i as u8 + 20);
    let online_creator = [14u8, 15, 16, 17, 18, 19, 20, 21];
    let header = build_header(
        &layout,
        0,
        0,
        None,
        None,
        None,
        None,
        None,
        HeaderIdentity {
            console_id,
            profile_id,
            device_id: &device_id,
            online_creator,
        },
        &[0u8; 20],
    );

    let cid = usize::try_from(CONSOLE_ID).unwrap();
    assert_eq!(&header[cid..cid + 5], &console_id);

    let pid = usize::try_from(PROFILE_ID).unwrap();
    assert_eq!(&header[pid..pid + 8], &profile_id);

    let did = usize::try_from(DEVICE_ID).unwrap();
    assert_eq!(&header[did..did + 20], &device_id);

    let ocid = usize::try_from(ONLINE_CREATOR).unwrap();
    assert_eq!(&header[ocid..ocid + 8], &online_creator);

    assert_eq!(
        pid + 8,
        usize::try_from(VOLUME_DESCRIPTOR).unwrap()
    );
    assert!(ocid >= usize::try_from(VOLUME_DESCRIPTOR).unwrap() + 0x24);
}

#[test]
fn avatar_item_metadata_is_written_at_its_header_offset() {
    let layout = small_layout();
    let metadata = AvatarItemMetadata {
        sub_category: 0x0102_0304,
        colorizable: 1,
        guid: std::array::from_fn(|i| i as u8),
        skeleton_version: 2,
    };
    let header = build_header(
        &layout,
        0x9000,
        0,
        None,
        None,
        Some(metadata),
        None,
        None,
        zero_identity(&[0u8; 20]),
        &[0u8; 20],
    );

    let off = usize::try_from(AVATAR_ITEM_METADATA).unwrap();
    assert_eq!(&header[off..off + 4], &metadata.sub_category.to_le_bytes());
    assert_eq!(
        &header[off + 4..off + 8],
        &metadata.colorizable.to_le_bytes()
    );
    assert_eq!(&header[off + 8..off + 24], &metadata.guid);
    assert_eq!(header[off + 24], metadata.skeleton_version);
}

#[test]
fn avatar_item_metadata_region_stays_zeroed_when_none() {
    let layout = small_layout();
    let header = build_header(
        &layout,
        0,
        0,
        None,
        None,
        None,
        None,
        None,
        zero_identity(&[0u8; 20]),
        &[0u8; 20],
    );
    let off = usize::try_from(AVATAR_ITEM_METADATA).unwrap();
    assert!(
        header[off..off + AVATAR_ITEM_METADATA_LEN]
            .iter()
            .all(|&b| b == 0)
    );
}

#[test]
fn video_metadata_is_written_at_its_header_offset() {
    let layout = small_layout();
    let series_id: [u8; 16] = std::array::from_fn(|i| i as u8);
    let season_id: [u8; 16] = std::array::from_fn(|i| i as u8 + 0x40);
    let metadata = VideoMetadata {
        series_id,
        season_id,
        season_number: 7,
        episode_number: 13,
    };
    let header = build_header(
        &layout,
        0x90000,
        0,
        None,
        None,
        None,
        Some(metadata),
        None,
        zero_identity(&[0u8; 20]),
        &[0u8; 20],
    );

    let off = usize::try_from(VIDEO_METADATA).unwrap();
    assert_eq!(&header[off..off + 16], &series_id);
    assert_eq!(&header[off + 16..off + 32], &season_id);
    assert_eq!(&header[off + 32..off + 34], &7u16.to_be_bytes());
    assert_eq!(&header[off + 34..off + 36], &13u16.to_be_bytes());
}

#[test]
fn video_metadata_region_stays_zeroed_when_none() {
    let layout = small_layout();
    let header = build_header(
        &layout,
        0,
        0,
        None,
        None,
        None,
        None,
        None,
        zero_identity(&[0u8; 20]),
        &[0u8; 20],
    );
    let off = usize::try_from(VIDEO_METADATA).unwrap();
    assert!(
        header[off..off + VIDEO_METADATA_LEN]
            .iter()
            .all(|&b| b == 0)
    );
}

#[test]
fn installer_trailer_grows_header_past_default_size() {
    let default_layout = small_layout();
    let trailer_layout = small_layout_with_installer_trailer();
    assert_ne!(
        trailer_layout.first_hash_table_address,
        default_layout.first_hash_table_address
    );
    assert_eq!(trailer_layout.first_hash_table_address, 0xB000);
    assert_eq!(default_layout.first_hash_table_address, 0xA000);

    let header = build_header(
        &trailer_layout,
        0,
        0,
        None,
        None,
        None,
        None,
        Some(&InstallerMetadata::Empty),
        zero_identity(&[0u8; 20]),
        &[0u8; 20],
    );
    assert_eq!(header.len() as u64, trailer_layout.first_hash_table_address);
    assert_eq!(header.len(), 0xB000);
}

#[test]
fn installer_metadata_none_variant_is_written_at_its_header_offset() {
    let layout = small_layout_with_installer_trailer();
    let header = build_header(
        &layout,
        0,
        0,
        None,
        None,
        None,
        None,
        Some(&InstallerMetadata::Empty),
        zero_identity(&[0u8; 20]),
        &[0u8; 20],
    );
    let off = usize::try_from(INSTALLER_METADATA).unwrap();
    assert_eq!(&header[off..off + 4], &0u32.to_be_bytes());
    let gate_len = usize::try_from(INSTALLER_TRAILER_GATE_LEN).unwrap();
    assert!(header[off + 4..off + gate_len].iter().all(|&b| b == 0));
}

#[test]
fn installer_metadata_version_variant_is_written_at_its_header_offset() {
    let layout = small_layout_with_installer_trailer();
    let base_version = InstallerVersion {
        major: 1,
        minor: 2,
        build: 0x1234,
        revision: 5,
    };
    let version = InstallerVersion {
        major: 3,
        minor: 4,
        build: 0x5678,
        revision: 9,
    };
    let metadata = InstallerMetadata::Version {
        is_title_update: true,
        base_version,
        version,
    };
    let header = build_header(
        &layout,
        0,
        0,
        None,
        None,
        None,
        None,
        Some(&metadata),
        zero_identity(&[0u8; 20]),
        &[0u8; 20],
    );
    let off = usize::try_from(INSTALLER_METADATA).unwrap();
    assert_eq!(
        &header[off..off + 4],
        &metadata.raw_installer_type().to_be_bytes()
    );
    assert_eq!(
        &header[off + 4..off + 8],
        &base_version.to_packed().to_be_bytes()
    );
    assert_eq!(
        &header[off + 8..off + 12],
        &version.to_packed().to_be_bytes()
    );
}

#[test]
fn installer_metadata_progress_cache_variant_is_written_at_its_header_offset() {
    let layout = small_layout_with_installer_trailer();
    let mut cab_resume_data = Box::new([0u8; INSTALLER_CAB_RESUME_DATA_LEN]);
    for (i, b) in cab_resume_data.iter_mut().enumerate() {
        *b = (i % 251) as u8;
    }
    let cab_resume_data_expected = cab_resume_data.clone();
    let metadata = InstallerMetadata::ProgressCache {
        kind: ProgressCacheKind::TitleContent,
        resume_state: 0x0102_0304,
        current_file_index: 7,
        current_file_offset: 0x1122_3344_5566_7788,
        bytes_processed: 0x99AA_BBCC_DDEE_FF00,
        last_modified_high: 0x0A0B_0C0D,
        last_modified_low: 0x0E0F_1011,
        cab_resume_data,
    };
    let header = build_header(
        &layout,
        0,
        0,
        None,
        None,
        None,
        None,
        Some(&metadata),
        zero_identity(&[0u8; 20]),
        &[0u8; 20],
    );
    let off = usize::try_from(INSTALLER_METADATA).unwrap();
    assert_eq!(
        &header[off..off + 4],
        &metadata.raw_installer_type().to_be_bytes()
    );
    assert_eq!(&header[off + 4..off + 8], &0x0102_0304u32.to_be_bytes());
    assert_eq!(&header[off + 8..off + 12], &7u32.to_be_bytes());
    assert_eq!(
        &header[off + 12..off + 20],
        &0x1122_3344_5566_7788u64.to_be_bytes()
    );
    assert_eq!(
        &header[off + 20..off + 28],
        &0x99AA_BBCC_DDEE_FF00u64.to_be_bytes()
    );
    assert_eq!(&header[off + 28..off + 32], &0x0A0B_0C0Du32.to_be_bytes());
    assert_eq!(&header[off + 32..off + 36], &0x0E0F_1011u32.to_be_bytes());
    assert_eq!(
        &header[off + 36..off + 36 + INSTALLER_CAB_RESUME_DATA_LEN],
        cab_resume_data_expected.as_slice()
    );
}

#[test]
fn installer_metadata_region_stays_zeroed_and_header_default_sized_when_none() {
    let layout = small_layout();
    let header = build_header(
        &layout,
        0,
        0,
        None,
        None,
        None,
        None,
        None,
        zero_identity(&[0u8; 20]),
        &[0u8; 20],
    );
    assert_eq!(header.len(), 0xA000);
    let off = usize::try_from(INSTALLER_METADATA).unwrap();
    assert!(header[off..].iter().all(|&b| b == 0));
}
