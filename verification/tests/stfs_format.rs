use iso2x::stfs::format::{
    read_header_prefix, read_header_thumbnails, read_installer_metadata, read_video_metadata,
    ContentType, InstallerMetadata, InstallerVersion, ProgressCacheKind, StfsMetadata,
    StfsVolumeDescriptor, INSTALLER_CAB_RESUME_DATA_LEN, INSTALLER_NONE,
    INSTALLER_SYSTEM_UPDATE_PROGRESS_CACHE, INSTALLER_TITLE_UPDATE, INSTALLER_TRAILER_GATE_LEN,
    LICENSE_ENTRIES_1_15_LEN, OFF_CONSOLE_ID, OFF_DEVICE_ID, OFF_HEADER_SIZE,
    OFF_INSTALLER_METADATA, OFF_LICENSE_ENTRIES_1_15, OFF_METADATA_VERSION, OFF_ONLINE_CREATOR,
    OFF_PROFILE_ID, OFF_THUMBNAIL_IMAGE, OFF_THUMBNAIL_SIZE, OFF_TITLE_THUMBNAIL_IMAGE,
    OFF_TITLE_THUMBNAIL_SIZE, OFF_VIDEO_METADATA, OFF_VOLUME_DESCRIPTOR, THUMBNAIL_MAX_SIZE_V1,
    THUMBNAIL_MAX_SIZE_V2, VIDEO_METADATA_LEN,
};

const PNG_MAGIC: [u8; 8] = [0x89, 0x50, 0x4E, 0x47, 0x0D, 0x0A, 0x1A, 0x0A];
const INSTALLER_METADATA: u64 = OFF_INSTALLER_METADATA as u64;
const VIDEO_METADATA: u64 = OFF_VIDEO_METADATA as u64;
const HEADER_SIZE: u64 = OFF_HEADER_SIZE as u64;
const METADATA_VERSION: u64 = OFF_METADATA_VERSION as u64;
const THUMBNAIL_SIZE: u64 = OFF_THUMBNAIL_SIZE as u64;
const TITLE_THUMBNAIL_SIZE: u64 = OFF_TITLE_THUMBNAIL_SIZE as u64;
const THUMBNAIL_IMAGE: u64 = OFF_THUMBNAIL_IMAGE as u64;
const TITLE_THUMBNAIL_IMAGE: u64 = OFF_TITLE_THUMBNAIL_IMAGE as u64;
const LICENSE_ENTRIES_1_15: u64 = OFF_LICENSE_ENTRIES_1_15 as u64;
const CONSOLE_ID: u64 = OFF_CONSOLE_ID as u64;
const PROFILE_ID: u64 = OFF_PROFILE_ID as u64;
const VOLUME_DESCRIPTOR: u64 = OFF_VOLUME_DESCRIPTOR as u64;
const ONLINE_CREATOR: u64 = OFF_ONLINE_CREATOR as u64;
const DEVICE_ID: u64 = OFF_DEVICE_ID as u64;

fn con_header_with_content_type(content_type: u32) -> Vec<u8> {
    let mut buf = vec![0u8; 0x348];
    buf[0..4].copy_from_slice(b"CON ");
    buf[0x344..0x348].copy_from_slice(&content_type.to_be_bytes());
    buf
}

#[test]
fn reads_recognized_content_type_from_con_header() {
    let buf = con_header_with_content_type(ContentType::InstalledGame.as_u32());
    let prefix = read_header_prefix(&buf).unwrap();
    assert_eq!(prefix.content_type, Some(ContentType::InstalledGame));
    assert_eq!(prefix.raw_content_type, ContentType::InstalledGame.as_u32());
}

#[test]
fn reads_recognized_content_type_from_live_header() {
    let mut buf = con_header_with_content_type(ContentType::GamesOnDemand.as_u32());
    buf[0..4].copy_from_slice(b"LIVE");
    let prefix = read_header_prefix(&buf).unwrap();
    assert_eq!(prefix.content_type, Some(ContentType::GamesOnDemand));
}

#[test]
fn reads_recognized_content_type_from_pirs_header() {
    let mut buf = con_header_with_content_type(ContentType::GamesOnDemand.as_u32());
    buf[0..4].copy_from_slice(b"PIRS");
    let prefix = read_header_prefix(&buf).unwrap();
    assert_eq!(prefix.content_type, Some(ContentType::GamesOnDemand));
}

#[test]
fn unrecognized_content_type_value_maps_to_none_not_an_error() {
    let buf = con_header_with_content_type(0x00FF_0000);
    let prefix = read_header_prefix(&buf).unwrap();
    assert_eq!(prefix.content_type, None);
    assert_eq!(prefix.raw_content_type, 0x00FF_0000);
}

#[test]
fn installer_metadata_gate_passes_at_exact_boundary() {
    let mut buf = vec![
        0u8;
        (INSTALLER_METADATA + INSTALLER_TRAILER_GATE_LEN)
            as usize
    ];
    buf[INSTALLER_METADATA as usize..][..4]
        .copy_from_slice(&INSTALLER_NONE.to_be_bytes());
    let first_hash_table_address =
        INSTALLER_METADATA + INSTALLER_TRAILER_GATE_LEN;
    let metadata = read_installer_metadata(&buf, first_hash_table_address);
    assert_eq!(metadata, Some(InstallerMetadata::Empty));
}

#[test]
fn installer_metadata_gate_rejects_one_byte_short() {
    let buf = vec![
        0u8;
        (INSTALLER_METADATA + INSTALLER_TRAILER_GATE_LEN)
            as usize
    ];
    let first_hash_table_address =
        INSTALLER_METADATA + INSTALLER_TRAILER_GATE_LEN - 1;
    let metadata = read_installer_metadata(&buf, first_hash_table_address);
    assert_eq!(metadata, None);
}

#[test]
fn installer_metadata_none_variant_reads_back() {
    let mut buf = vec![0u8; INSTALLER_METADATA as usize + 4];
    buf[INSTALLER_METADATA as usize..][..4]
        .copy_from_slice(&INSTALLER_NONE.to_be_bytes());
    let first_hash_table_address =
        INSTALLER_METADATA + INSTALLER_TRAILER_GATE_LEN;
    let metadata = read_installer_metadata(&buf, first_hash_table_address);
    assert_eq!(metadata, Some(InstallerMetadata::Empty));
}

#[test]
fn installer_metadata_version_variant_reads_back() {
    let mut buf = vec![0u8; INSTALLER_METADATA as usize + 12];
    let off = INSTALLER_METADATA as usize;
    buf[off..][..4].copy_from_slice(&INSTALLER_TITLE_UPDATE.to_be_bytes());
    let base_version = InstallerVersion {
        major: 1,
        minor: 2,
        build: 0x1234,
        revision: 5,
    };
    let version = InstallerVersion {
        major: 3,
        minor: 4,
        build: 0x5678,
        revision: 9,
    };
    buf[off + 4..][..4].copy_from_slice(&base_version.to_packed().to_be_bytes());
    buf[off + 8..][..4].copy_from_slice(&version.to_packed().to_be_bytes());
    let first_hash_table_address =
        INSTALLER_METADATA + INSTALLER_TRAILER_GATE_LEN;
    let metadata = read_installer_metadata(&buf, first_hash_table_address);
    assert_eq!(
        metadata,
        Some(InstallerMetadata::Version {
            is_title_update: true,
            base_version,
            version,
        })
    );
}

#[test]
fn installer_metadata_progress_cache_variant_reads_back() {
    let off = INSTALLER_METADATA as usize;
    let mut buf =
        vec![0u8; off + 4 + 4 + 4 + 8 + 8 + 8 + INSTALLER_CAB_RESUME_DATA_LEN];
    buf[off..][..4]
        .copy_from_slice(&INSTALLER_SYSTEM_UPDATE_PROGRESS_CACHE.to_be_bytes());
    buf[off + 4..][..4].copy_from_slice(&0x4649_4C48u32.to_be_bytes());
    buf[off + 8..][..4].copy_from_slice(&7u32.to_be_bytes());
    buf[off + 12..][..8].copy_from_slice(&0x1122_3344_5566_7788u64.to_be_bytes());
    buf[off + 20..][..8].copy_from_slice(&0x99AA_BBCC_DDEE_FF00u64.to_be_bytes());
    buf[off + 28..][..4].copy_from_slice(&0x1111_2222u32.to_be_bytes());
    buf[off + 32..][..4].copy_from_slice(&0x3333_4444u32.to_be_bytes());
    let cab_start = off + 36;
    for (i, b) in buf[cab_start..][..INSTALLER_CAB_RESUME_DATA_LEN]
        .iter_mut()
        .enumerate()
    {
        *b = (i % 256) as u8;
    }
    let first_hash_table_address =
        INSTALLER_METADATA + INSTALLER_TRAILER_GATE_LEN;
    let metadata = read_installer_metadata(&buf, first_hash_table_address)
        .expect("progress cache variant should parse");
    match metadata {
        InstallerMetadata::ProgressCache {
            kind,
            resume_state,
            current_file_index,
            current_file_offset,
            bytes_processed,
            last_modified_high,
            last_modified_low,
            cab_resume_data,
        } => {
            assert_eq!(kind, ProgressCacheKind::SystemUpdate);
            assert_eq!(resume_state, 0x4649_4C48);
            assert_eq!(current_file_index, 7);
            assert_eq!(current_file_offset, 0x1122_3344_5566_7788);
            assert_eq!(bytes_processed, 0x99AA_BBCC_DDEE_FF00);
            assert_eq!(last_modified_high, 0x1111_2222);
            assert_eq!(last_modified_low, 0x3333_4444);
            assert_eq!(cab_resume_data[1], 1);
        }
        other => panic!("expected ProgressCache, got {other:?}"),
    }
}

#[test]
fn installer_metadata_unrecognized_type_maps_to_none_not_an_error() {
    let mut buf = vec![0u8; INSTALLER_METADATA as usize + 4];
    buf[INSTALLER_METADATA as usize..][..4]
        .copy_from_slice(&0xDEAD_BEEFu32.to_be_bytes());
    let first_hash_table_address =
        INSTALLER_METADATA + INSTALLER_TRAILER_GATE_LEN;
    let metadata = read_installer_metadata(&buf, first_hash_table_address);
    assert_eq!(metadata, None);
}

#[test]
fn video_metadata_reads_back() {
    let off = VIDEO_METADATA as usize;
    let mut buf = vec![0u8; off + VIDEO_METADATA_LEN];
    let series_id: [u8; 16] = std::array::from_fn(|i| i as u8);
    let season_id: [u8; 16] = std::array::from_fn(|i| i as u8 + 0x40);
    buf[off..off + 16].copy_from_slice(&series_id);
    buf[off + 16..off + 32].copy_from_slice(&season_id);
    buf[off + 32..off + 34].copy_from_slice(&7u16.to_be_bytes());
    buf[off + 34..off + 36].copy_from_slice(&13u16.to_be_bytes());
    let metadata = read_video_metadata(&buf)
        .expect("video metadata should parse from a full-length buffer");
    assert_eq!(metadata.series_id, series_id);
    assert_eq!(metadata.season_id, season_id);
    assert_eq!(metadata.season_number, 7);
    assert_eq!(metadata.episode_number, 13);
}

#[test]
fn video_metadata_short_buffer_degrades_to_none_instead_of_erroring() {
    let buf = vec![0u8; VIDEO_METADATA as usize];
    let metadata = read_video_metadata(&buf);
    assert_eq!(metadata, None);
}

#[test]
fn rejects_bad_magic() {
    let mut buf = con_header_with_content_type(ContentType::InstalledGame.as_u32());
    buf[0..4].copy_from_slice(b"NOPE");
    let err = read_header_prefix(&buf).unwrap_err();
    assert!(err.message().contains("not a LIVE/PIRS/CON-style header"));
}

#[test]
fn header_size_is_read_from_the_correct_offset() {
    let mut buf = con_header_with_content_type(ContentType::InstalledGame.as_u32());
    buf[HEADER_SIZE as usize..][..4]
        .copy_from_slice(&0x0000_AD00u32.to_be_bytes());
    let prefix = read_header_prefix(&buf).unwrap();
    assert_eq!(prefix.header_size, 0x0000_AD00);
}

fn header_with_thumbnails(metadata_version: u32, thumb: &[u8], title_thumb: &[u8]) -> Vec<u8> {
    let mut buf = vec![0u8; 0x971A + 0x4000];
    buf[0..4].copy_from_slice(b"CON ");
    buf[METADATA_VERSION as usize..][..4]
        .copy_from_slice(&metadata_version.to_be_bytes());
    buf[THUMBNAIL_SIZE as usize..][..4]
        .copy_from_slice(&(thumb.len() as u32).to_be_bytes());
    buf[TITLE_THUMBNAIL_SIZE as usize..][..4]
        .copy_from_slice(&(title_thumb.len() as u32).to_be_bytes());
    buf[THUMBNAIL_IMAGE as usize..][..thumb.len()].copy_from_slice(thumb);
    buf[TITLE_THUMBNAIL_IMAGE as usize..][..title_thumb.len()]
        .copy_from_slice(title_thumb);
    buf
}

fn png(payload: &[u8]) -> Vec<u8> {
    let mut v = PNG_MAGIC.to_vec();
    v.extend_from_slice(payload);
    v
}

#[test]
fn reads_both_thumbnails_when_present() {
    let thumb = png(b"thumb");
    let title_thumb = png(b"title-thumb");
    let buf = header_with_thumbnails(1, &thumb, &title_thumb);
    let result = read_header_thumbnails(&buf);
    assert_eq!(result.thumbnail, Some(thumb));
    assert_eq!(result.title_thumbnail, Some(title_thumb));
}

#[test]
fn zero_size_field_means_no_thumbnail() {
    let buf = header_with_thumbnails(1, &[], &[]);
    let result = read_header_thumbnails(&buf);
    assert!(result.thumbnail.is_none());
    assert!(result.title_thumbnail.is_none());
}

#[test]
fn oversized_v1_size_field_is_rejected() {
    let mut buf = header_with_thumbnails(1, &png(b"x"), &[]);
    buf[THUMBNAIL_SIZE as usize..][..4]
        .copy_from_slice(&(THUMBNAIL_MAX_SIZE_V1 + 1).to_be_bytes());
    let result = read_header_thumbnails(&buf);
    assert!(result.thumbnail.is_none());
}

#[test]
fn v2_max_size_boundary() {
    let payload_len = THUMBNAIL_MAX_SIZE_V2 as usize - PNG_MAGIC.len();
    let thumb = png(&vec![0u8; payload_len]);
    let buf = header_with_thumbnails(2, &thumb, &[]);
    let result = read_header_thumbnails(&buf);
    assert!(result.thumbnail.is_some());

    let mut buf = header_with_thumbnails(2, &thumb, &[]);
    buf[THUMBNAIL_SIZE as usize..][..4]
        .copy_from_slice(&(THUMBNAIL_MAX_SIZE_V2 + 1).to_be_bytes());
    let result = read_header_thumbnails(&buf);
    assert!(result.thumbnail.is_none());
}

#[test]
fn non_png_bytes_at_valid_size_are_rejected() {
    let mut buf = header_with_thumbnails(1, &[0u8; 8], &[]);
    buf[THUMBNAIL_SIZE as usize..][..4].copy_from_slice(&8u32.to_be_bytes());
    buf[THUMBNAIL_IMAGE as usize..][..8].copy_from_slice(&[0u8; 8]);
    let result = read_header_thumbnails(&buf);
    assert!(result.thumbnail.is_none());
}

#[test]
fn short_buffer_degrades_to_no_thumbnails_instead_of_erroring() {
    let buf = vec![0u8; 0x10];
    let result = read_header_thumbnails(&buf);
    assert!(result.thumbnail.is_none());
    assert!(result.title_thumbnail.is_none());
}

fn sample_metadata() -> StfsMetadata {
    StfsMetadata {
        license_entries_1_15: [0xAB; LICENSE_ENTRIES_1_15_LEN],
        header_hash: [0xCDu8; 20],
        header_size: 0x0000_AD00,
        content_type: 0x7000,
        metadata_version: 2,
        media_id: 0x1111_2222,
        title_id: 0x4141_4141,
        platform: 3,
        executable_type: 4,
        disc_number: 1,
        disc_count: 1,
        save_game_id: 0,
        console_id: [1, 2, 3, 4, 5],
        profile_id: [6, 7, 8, 9, 10, 11, 12, 13],
        volume_descriptor: StfsVolumeDescriptor {
            size: 0x24,
            block_separation: 0,
            file_table_block_count: 1,
            file_table_block_num: 0x02_03_04,
            top_hash_table_hash: [0xEFu8; 20],
            allocated_block_count: 7,
        },
        online_creator: [14, 15, 16, 17, 18, 19, 20, 21],
        device_id: std::array::from_fn(|i| i as u8 + 20),
    }
}

#[test]
fn stfs_metadata_round_trips() {
    let metadata = sample_metadata();
    let mut buf = vec![0u8; 0x412];
    metadata.write_at(&mut buf);
    let parsed =
        StfsMetadata::read_at(&buf).unwrap();

    assert_eq!(parsed.license_entries_1_15, metadata.license_entries_1_15);
    assert_eq!(parsed.header_hash, metadata.header_hash);
    assert_eq!(parsed.header_size, metadata.header_size);
    assert_eq!(parsed.content_type, metadata.content_type);
    assert_eq!(parsed.metadata_version, metadata.metadata_version);
    assert_eq!(parsed.media_id, metadata.media_id);
    assert_eq!(parsed.title_id, metadata.title_id);
    assert_eq!(parsed.platform, metadata.platform);
    assert_eq!(parsed.executable_type, metadata.executable_type);
    assert_eq!(parsed.disc_number, metadata.disc_number);
    assert_eq!(parsed.disc_count, metadata.disc_count);
    assert_eq!(parsed.save_game_id, metadata.save_game_id);
    assert_eq!(parsed.console_id, metadata.console_id);
    assert_eq!(parsed.profile_id, metadata.profile_id);
    assert_eq!(parsed.volume_descriptor, metadata.volume_descriptor);
    assert_eq!(parsed.online_creator, metadata.online_creator);
    assert_eq!(parsed.device_id, metadata.device_id);
}

#[test]
fn stfs_metadata_fields_land_at_documented_header_offsets() {
    let metadata = sample_metadata();
    let mut buf = vec![0u8; 0x412];
    metadata.write_at(&mut buf);

    let off = |o: u64| usize::try_from(o).unwrap();

    assert_eq!(
        &buf[off(LICENSE_ENTRIES_1_15)..]
            [..LICENSE_ENTRIES_1_15_LEN],
        &metadata.license_entries_1_15
    );
    assert_eq!(
        &buf[off(CONSOLE_ID)..][..5],
        &metadata.console_id
    );
    assert_eq!(
        &buf[off(PROFILE_ID)..][..8],
        &metadata.profile_id
    );
    assert_eq!(
        &buf[off(VOLUME_DESCRIPTOR)],
        &metadata.volume_descriptor.size
    );
    assert_eq!(
        &buf[off(ONLINE_CREATOR)..][..8],
        &metadata.online_creator
    );
    assert_eq!(
        &buf[off(DEVICE_ID)..][..20],
        &metadata.device_id
    );
    assert_eq!(
        u32::from_be_bytes(
            buf[off(HEADER_SIZE)..][..4]
                .try_into()
                .unwrap()
        ),
        metadata.header_size
    );
    let vd = off(VOLUME_DESCRIPTOR);
    assert_eq!(
        u16::from_le_bytes(buf[vd + 3..vd + 5].try_into().unwrap()),
        metadata.volume_descriptor.file_table_block_count
    );
    assert_eq!(
        u32::from(buf[vd + 5]) | (u32::from(buf[vd + 6]) << 8) | (u32::from(buf[vd + 7]) << 16),
        metadata.volume_descriptor.file_table_block_num
    );
}

fn valid_stfs_header_bytes() -> Vec<u8> {
    let metadata = sample_metadata();
    let mut buf = vec![0u8; 0x971A + 0x4000];
    buf[0..4].copy_from_slice(b"CON ");
    metadata.write_at(&mut buf);

    let thumb = png(b"thumb");
    let title_thumb = png(b"title-thumb");
    buf[THUMBNAIL_SIZE as usize..][..4]
        .copy_from_slice(&(thumb.len() as u32).to_be_bytes());
    buf[TITLE_THUMBNAIL_SIZE as usize..][..4]
        .copy_from_slice(&(title_thumb.len() as u32).to_be_bytes());
    buf[THUMBNAIL_IMAGE as usize..][..thumb.len()].copy_from_slice(&thumb);
    buf[TITLE_THUMBNAIL_IMAGE as usize..][..title_thumb.len()]
        .copy_from_slice(&title_thumb);
    buf
}

#[test]
fn valid_stfs_header_bytes_parses_prefix_and_both_thumbnails() {
    let buf = valid_stfs_header_bytes();
    let prefix = read_header_prefix(&buf).expect("prefix should parse");
    assert_eq!(prefix.header_size, sample_metadata().header_size);
    let thumbs = read_header_thumbnails(&buf);
    assert!(thumbs.thumbnail.is_some());
    assert!(thumbs.title_thumbnail.is_some());
}
