//! On-disk layout shared by the package reader and writer.
use crate::bytes::{
    be_bytes, be_val, copy_range, field, get_be, get_le, le_bytes, le_val, overwrite, take_array,
    write_at, write_be, write_le, zeroed, zeros,
};
use crate::bytes::opt_view;
use crate::utils::text::{decode_utf16_lossy, utf16_lossy};
use vstd::prelude::*;

verus! {

broadcast use crate::bytes::group_fields;

pub const MAGIC_CON: u32 = 0x434F_4E20;

pub const MAGIC_LIVE: u32 = 0x4C49_5645;

pub const MAGIC_PIRS: u32 = 0x5049_5253;

pub const OFF_LICENSE_TABLE: usize = 0x22C;

pub const OFF_LICENSE_ENTRIES_1_15: usize = 0x23C;

pub const LICENSE_ENTRIES_1_15_LEN: usize = 0xF0;

pub const OFF_HEADER_SIZE: usize = 0x340;

pub const OFF_CONTENT_TYPE: usize = 0x344;

pub const OFF_METADATA_VERSION: usize = 0x348;

pub const OFF_CONSOLE_ID: usize = 0x36C;

pub const OFF_PROFILE_ID: usize = 0x371;

pub const OFF_VOLUME_DESCRIPTOR: usize = 0x379;

pub const OFF_DESCRIPTOR_TYPE: usize = 0x3A9;

pub const OFF_ONLINE_CREATOR: usize = 0x3AD;

pub const OFF_AVATAR_ITEM_METADATA: usize = 0x3D9;

pub const AVATAR_ITEM_METADATA_LEN: usize = 25;

pub const OFF_VIDEO_METADATA: usize = 0x3D9;

pub const VIDEO_METADATA_LEN: usize = 0x24;

pub const OFF_DEVICE_ID: usize = 0x3FD;

pub const OFF_DISPLAY_NAME: usize = 0x411;

pub const DISPLAY_NAME_MAX_UNITS: usize = 0x80;

pub const OFF_THUMBNAIL_SIZE: usize = 0x1712;

pub const OFF_TITLE_THUMBNAIL_SIZE: usize = 0x1716;

pub const OFF_THUMBNAIL_IMAGE: usize = 0x171A;

pub const OFF_TITLE_THUMBNAIL_IMAGE: usize = 0x571A;

pub const OFF_INSTALLER_METADATA: usize = 0x971A;

pub const INSTALLER_TRAILER_GATE_LEN: u64 = 0x15F4;

pub const INSTALLER_CAB_RESUME_DATA_LEN: usize = 0x15D0;

/// Length of the fixed region from the license table through the device id.
pub const METADATA_LEN: usize = 0x1E5;

pub const TOP_RECORD_SIZE: usize = 0x18;

pub const FILE_ENTRY_SIZE: usize = 0x40;

pub const FILE_ENTRIES_PER_BLOCK: usize = 0x40;

pub const ROOT_ENTRY_INDEX: u16 = 0xFFFF;

pub const NAME_LEN_OFFSET: usize = 0x28;

pub const PATH_INDICATOR_OFFSET: usize = 0x32;

/// Fixed data-block size.
pub const BLOCK_SIZE: u64 = 0x1000;

pub const THUMBNAIL_MAX_SIZE_V1: u32 = 0x4000;

pub const THUMBNAIL_MAX_SIZE_V2: u32 = 0x3D00;

pub const INSTALLER_NONE: u32 = 0;

pub const INSTALLER_SYSTEM_UPDATE: u32 = 0x5355_5044;

pub const INSTALLER_TITLE_UPDATE: u32 = 0x5455_5044;

pub const INSTALLER_SYSTEM_UPDATE_PROGRESS_CACHE: u32 = 0x5024_5355;

pub const INSTALLER_TITLE_UPDATE_PROGRESS_CACHE: u32 = 0x5024_5455;

pub const INSTALLER_TITLE_CONTENT_PROGRESS_CACHE: u32 = 0x5024_5443;

/// Size of one file-listing entry, in bytes.
pub fn stfs_file_entry_size() -> (r: u32)
    ensures
        r == FILE_ENTRY_SIZE,
{
    FILE_ENTRY_SIZE as u32
}

/// Offset of the name-length byte in a file-listing entry.
pub fn stfs_file_entry_name_len_offset() -> (r: u32)
    ensures
        r == NAME_LEN_OFFSET,
{
    NAME_LEN_OFFSET as u32
}

/// Offset of the parent index in a file-listing entry.
pub fn stfs_file_entry_path_indicator_offset() -> (r: u32)
    ensures
        r == PATH_INDICATOR_OFFSET,
{
    PATH_INDICATOR_OFFSET as u32
}

/// The package content types that change how a header is read or written.
#[derive(Clone, Copy, Debug, PartialEq, Eq, Structural)]
pub enum ContentType {
    InstalledGame,
    XboxOriginal,
    GamesOnDemand,
    AvatarItem,
    Video,
}

impl ContentType {
    /// The header value of this content type.
    pub open spec fn value(self) -> u32 {
        match self {
            ContentType::InstalledGame => 0x4000,
            ContentType::XboxOriginal => 0x5000,
            ContentType::GamesOnDemand => 0x7000,
            ContentType::AvatarItem => 0x9000,
            ContentType::Video => 0x9_0000,
        }
    }

    pub fn as_u32(self) -> (r: u32)
        ensures
            r == self.value(),
    {
        match self {
            ContentType::InstalledGame => 0x4000,
            ContentType::XboxOriginal => 0x5000,
            ContentType::GamesOnDemand => 0x7000,
            ContentType::AvatarItem => 0x9000,
            ContentType::Video => 0x9_0000,
        }
    }

    /// The content type with header value `v`, if there is one.
    pub fn from_u32(v: u32) -> (r: Option<ContentType>)
        ensures
            match r {
                Some(c) => c.value() == v,
                None => forall|c: ContentType| c.value() != v,
            },
            r == content_type_of(v),
    {
        if v == 0x4000 {
            Some(ContentType::InstalledGame)
        } else if v == 0x5000 {
            Some(ContentType::XboxOriginal)
        } else if v == 0x7000 {
            Some(ContentType::GamesOnDemand)
        } else if v == 0x9000 {
            Some(ContentType::AvatarItem)
        } else if v == 0x9_0000 {
            Some(ContentType::Video)
        } else {
            None
        }
    }
}

/// The content type with header value `v`, if there is one.
pub open spec fn content_type_of(v: u32) -> Option<ContentType> {
    if v == 0x4000 {
        Some(ContentType::InstalledGame)
    } else if v == 0x5000 {
        Some(ContentType::XboxOriginal)
    } else if v == 0x7000 {
        Some(ContentType::GamesOnDemand)
    } else if v == 0x9000 {
        Some(ContentType::AvatarItem)
    } else if v == 0x9_0000 {
        Some(ContentType::Video)
    } else {
        None
    }
}

/// Which hash-table level tops a package, determined by total block count.
#[derive(Clone, Copy, Debug, PartialEq, Eq, Structural)]
pub enum Level {
    Zero,
    One,
    Two,
}

/// The level that tops a package of `blocks` blocks; none past level-two capacity.
pub open spec fn level_for(blocks: int) -> Option<Level> {
    if blocks <= 0xAA {
        Some(Level::Zero)
    } else if blocks <= 0x70E4 {
        Some(Level::One)
    } else if blocks <= 0x4A_F768 {
        Some(Level::Two)
    } else {
        None
    }
}

pub fn top_level_for(blocks: u64) -> (r: Option<Level>)
    ensures
        r == level_for(blocks as int),
{
    if blocks <= 0xAA {
        Some(Level::Zero)
    } else if blocks <= 0x70E4 {
        Some(Level::One)
    } else if blocks <= 0x4A_F768 {
        Some(Level::Two)
    } else {
        None
    }
}

#[derive(Clone, Copy, Debug, PartialEq, Eq)]
pub struct StfsVolumeDescriptor {
    pub size: u8,
    pub block_separation: u8,
    pub file_table_block_count: u16,
    /// Stored in 24 bits.
    pub file_table_block_num: u32,
    pub top_hash_table_hash: [u8; 20],
    pub allocated_block_count: u32,
}

/// The fixed header region from the license table (0x22C) through the device id.
#[derive(Clone, Debug, PartialEq, Eq)]
pub struct StfsMetadata {
    pub license_entries_1_15: [u8; 240],
    pub header_hash: [u8; 20],
    pub header_size: u32,
    pub content_type: u32,
    pub metadata_version: u32,
    pub media_id: u32,
    pub title_id: u32,
    pub platform: u8,
    pub executable_type: u8,
    pub disc_number: u8,
    pub disc_count: u8,
    pub save_game_id: u32,
    pub console_id: [u8; 5],
    pub profile_id: [u8; 8],
    pub volume_descriptor: StfsVolumeDescriptor,
    pub online_creator: [u8; 8],
    pub device_id: [u8; 20],
}

/// The header bytes up to the display name that hold exactly the fields of `m`: each field at
/// its offset from the start of the header, zero everywhere else.
pub open spec fn metadata_image(m: StfsMetadata) -> Seq<u8> {
    let s = zeros(OFF_DISPLAY_NAME as nat);
    let s = overwrite(s, 0x23C, m.license_entries_1_15@);
    let s = overwrite(s, 0x32C, m.header_hash@);
    let s = overwrite(s, 0x340, be_bytes(m.header_size as nat, 4));
    let s = overwrite(s, 0x344, be_bytes(m.content_type as nat, 4));
    let s = overwrite(s, 0x348, be_bytes(m.metadata_version as nat, 4));
    let s = overwrite(s, 0x354, be_bytes(m.media_id as nat, 4));
    let s = overwrite(s, 0x360, be_bytes(m.title_id as nat, 4));
    let s = overwrite(s, 0x364, be_bytes(m.platform as nat, 1));
    let s = overwrite(s, 0x365, be_bytes(m.executable_type as nat, 1));
    let s = overwrite(s, 0x366, be_bytes(m.disc_number as nat, 1));
    let s = overwrite(s, 0x367, be_bytes(m.disc_count as nat, 1));
    let s = overwrite(s, 0x368, be_bytes(m.save_game_id as nat, 4));
    let s = overwrite(s, 0x36C, m.console_id@);
    let s = overwrite(s, 0x371, m.profile_id@);
    let s = overwrite(s, 0x379, be_bytes(m.volume_descriptor.size as nat, 1));
    let s = overwrite(s, 0x37B, be_bytes(m.volume_descriptor.block_separation as nat, 1));
    let s = overwrite(s, 0x37C, le_bytes(m.volume_descriptor.file_table_block_count as nat, 2));
    let s = overwrite(s, 0x37E, le_bytes(m.volume_descriptor.file_table_block_num as nat, 3));
    let s = overwrite(s, 0x381, m.volume_descriptor.top_hash_table_hash@);
    let s = overwrite(s, 0x395, be_bytes(m.volume_descriptor.allocated_block_count as nat, 4));
    let s = overwrite(s, 0x3AD, m.online_creator@);
    overwrite(s, 0x3FD, m.device_id@)
}

/// `m` holds what the header bytes `b` say, field by field.
pub open spec fn metadata_reads(b: Seq<u8>, m: StfsMetadata) -> bool {
    &&& m.license_entries_1_15@ == field(b, 0x23C, 0xF0)
    &&& m.header_hash@ == field(b, 0x32C, 20)
    &&& m.header_size == be_val(field(b, 0x340, 4))
    &&& m.content_type == be_val(field(b, 0x344, 4))
    &&& m.metadata_version == be_val(field(b, 0x348, 4))
    &&& m.media_id == be_val(field(b, 0x354, 4))
    &&& m.title_id == be_val(field(b, 0x360, 4))
    &&& m.platform == be_val(field(b, 0x364, 1))
    &&& m.executable_type == be_val(field(b, 0x365, 1))
    &&& m.disc_number == be_val(field(b, 0x366, 1))
    &&& m.disc_count == be_val(field(b, 0x367, 1))
    &&& m.save_game_id == be_val(field(b, 0x368, 4))
    &&& m.console_id@ == field(b, 0x36C, 5)
    &&& m.profile_id@ == field(b, 0x371, 8)
    &&& m.volume_descriptor.size == be_val(field(b, 0x379, 1))
    &&& m.volume_descriptor.block_separation == be_val(field(b, 0x37B, 1))
    &&& m.volume_descriptor.file_table_block_count == le_val(field(b, 0x37C, 2))
    &&& m.volume_descriptor.file_table_block_num == le_val(field(b, 0x37E, 3))
    &&& m.volume_descriptor.top_hash_table_hash@ == field(b, 0x381, 20)
    &&& m.volume_descriptor.allocated_block_count == be_val(field(b, 0x395, 4))
    &&& m.online_creator@ == field(b, 0x3AD, 8)
    &&& m.device_id@ == field(b, 0x3FD, 20)
}

impl StfsMetadata {
    /// Reads the region from the start of a header; none if the header ends before it does.
    pub fn read_at(header: &[u8]) -> (r: Option<StfsMetadata>)
        ensures
            r is Some <==> header@.len() >= OFF_DISPLAY_NAME,
            r matches Some(m) ==> metadata_reads(header@, m),
    {
        if header.len() < OFF_DISPLAY_NAME {
            return None;
        }
        proof {
            crate::bytes::lemma_pow256();
        }
        let volume_descriptor = StfsVolumeDescriptor {
            size: get_be(header, 0x379, 1) as u8,
            block_separation: get_be(header, 0x37B, 1) as u8,
            file_table_block_count: get_le(header, 0x37C, 2) as u16,
            file_table_block_num: get_le(header, 0x37E, 3) as u32,
            top_hash_table_hash: take_array(header, 0x381),
            allocated_block_count: get_be(header, 0x395, 4) as u32,
        };
        Some(
            StfsMetadata {
                license_entries_1_15: take_array(header, 0x23C),
                header_hash: take_array(header, 0x32C),
                header_size: get_be(header, 0x340, 4) as u32,
                content_type: get_be(header, 0x344, 4) as u32,
                metadata_version: get_be(header, 0x348, 4) as u32,
                media_id: get_be(header, 0x354, 4) as u32,
                title_id: get_be(header, 0x360, 4) as u32,
                platform: get_be(header, 0x364, 1) as u8,
                executable_type: get_be(header, 0x365, 1) as u8,
                disc_number: get_be(header, 0x366, 1) as u8,
                disc_count: get_be(header, 0x367, 1) as u8,
                save_game_id: get_be(header, 0x368, 4) as u32,
                console_id: take_array(header, 0x36C),
                profile_id: take_array(header, 0x371),
                volume_descriptor,
                online_creator: take_array(header, 0x3AD),
                device_id: take_array(header, 0x3FD),
            },
        )
    }

    /// Writes the region over a header, its gaps as zeros.
    pub fn write_at(&self, header: &mut Vec<u8>)
        requires
            old(header)@.len() >= OFF_DISPLAY_NAME,
        ensures
            final(header)@ == overwrite(
                old(header)@,
                0x22C,
                field(metadata_image(*self), 0x22C, 0x1E5),
            ),
    {
        let mut b: Vec<u8> = zeroed(OFF_DISPLAY_NAME);
        write_at(&mut b, 0x23C, self.license_entries_1_15.as_slice());
        write_at(&mut b, 0x32C, self.header_hash.as_slice());
        write_be(&mut b, 0x340, self.header_size as u64, 4);
        write_be(&mut b, 0x344, self.content_type as u64, 4);
        write_be(&mut b, 0x348, self.metadata_version as u64, 4);
        write_be(&mut b, 0x354, self.media_id as u64, 4);
        write_be(&mut b, 0x360, self.title_id as u64, 4);
        write_be(&mut b, 0x364, self.platform as u64, 1);
        write_be(&mut b, 0x365, self.executable_type as u64, 1);
        write_be(&mut b, 0x366, self.disc_number as u64, 1);
        write_be(&mut b, 0x367, self.disc_count as u64, 1);
        write_be(&mut b, 0x368, self.save_game_id as u64, 4);
        write_at(&mut b, 0x36C, self.console_id.as_slice());
        write_at(&mut b, 0x371, self.profile_id.as_slice());
        let vd = &self.volume_descriptor;
        write_be(&mut b, 0x379, vd.size as u64, 1);
        write_be(&mut b, 0x37B, vd.block_separation as u64, 1);
        write_le(&mut b, 0x37C, vd.file_table_block_count as u64, 2);
        write_le(&mut b, 0x37E, vd.file_table_block_num as u64, 3);
        write_at(&mut b, 0x381, vd.top_hash_table_hash.as_slice());
        write_be(&mut b, 0x395, vd.allocated_block_count as u64, 4);
        write_at(&mut b, 0x3AD, self.online_creator.as_slice());
        write_at(&mut b, 0x3FD, self.device_id.as_slice());
        let region = copy_range(b.as_slice(), OFF_LICENSE_TABLE, OFF_DISPLAY_NAME);
        write_at(header, OFF_LICENSE_TABLE, region.as_slice());
    }
}

/// Reading a written region gives back every field, the file-table block number in its 24 bits.
pub proof fn metadata_round_trips(header: Seq<u8>, m: StfsMetadata, parsed: StfsMetadata)
    requires
        header.len() >= OFF_DISPLAY_NAME,
        metadata_reads(
            overwrite(header, 0x22C, field(metadata_image(m), 0x22C, 0x1E5)),
            parsed,
        ),
    ensures
        parsed.volume_descriptor.file_table_block_num == m.volume_descriptor.file_table_block_num
            % 0x100_0000,
        parsed == (StfsMetadata {
            volume_descriptor: StfsVolumeDescriptor {
                file_table_block_num: parsed.volume_descriptor.file_table_block_num,
                ..m.volume_descriptor
            },
            ..m
        }),
{
    let image = metadata_image(m);
    let b = overwrite(header, 0x22C, field(image, 0x22C, 0x1E5));
    assert forall|x: int, n: int| 0x22C <= x && 0 <= n && x + n <= 0x411 implies #[trigger] field(
        b,
        x,
        n,
    ) == field(image, x, n) by {
        assert(field(b, x, n) =~= field(image, x, n));
    }
    crate::bytes::lemma_pow256();
    crate::bytes::lemma_le_mod(m.volume_descriptor.file_table_block_num as nat, 3);
    broadcast use crate::bytes::lemma_be_round_trip, crate::bytes::lemma_le_round_trip;

    assert(parsed.license_entries_1_15 =~= m.license_entries_1_15);
    assert(parsed.header_hash =~= m.header_hash);
    assert(parsed.console_id =~= m.console_id);
    assert(parsed.profile_id =~= m.profile_id);
    assert(parsed.volume_descriptor.top_hash_table_hash
        =~= m.volume_descriptor.top_hash_table_hash);
    assert(parsed.online_creator =~= m.online_creator);
    assert(parsed.device_id =~= m.device_id);
}


/// Why a header was refused.
#[derive(Clone, Copy, Debug, PartialEq, Eq, Structural)]
pub enum HeaderError {
    /// The header ends before its content type.
    Truncated,
    /// The first four bytes are none of the three magics.
    BadMagic,
}

impl HeaderError {
    pub fn message(&self) -> (r: &'static str)
        ensures
            r@ == match *self {
                HeaderError::Truncated => "header is truncated"@,
                HeaderError::BadMagic => "not a LIVE/PIRS/CON-style header"@,
            },
    {
        match *self {
            HeaderError::Truncated => "header is truncated",
            HeaderError::BadMagic => "not a LIVE/PIRS/CON-style header",
        }
    }
}

/// The fields that identify a package header.
#[derive(Clone, Copy, Debug, PartialEq, Eq)]
pub struct HeaderPrefix {
    pub header_size: u32,
    pub raw_content_type: u32,
    /// None for a value that stands for no known content type.
    pub content_type: Option<ContentType>,
}

/// What the header bytes `h` say of header size and content type.
pub open spec fn header_prefix_of(h: Seq<u8>) -> Result<HeaderPrefix, HeaderError> {
    if h.len() < 4 {
        Err(HeaderError::Truncated)
    } else if be_val(field(h, 0, 4)) != MAGIC_CON && be_val(field(h, 0, 4)) != MAGIC_LIVE && be_val(
        field(h, 0, 4),
    ) != MAGIC_PIRS {
        Err(HeaderError::BadMagic)
    } else if h.len() < 0x348 {
        Err(HeaderError::Truncated)
    } else {
        let raw = be_val(field(h, 0x344, 4)) as u32;
        Ok(
            HeaderPrefix {
                header_size: be_val(field(h, 0x340, 4)) as u32,
                raw_content_type: raw,
                content_type: content_type_of(raw),
            },
        )
    }
}

/// Checks the magic, then reads header size and content type.
pub fn read_header_prefix(header: &[u8]) -> (r: Result<HeaderPrefix, HeaderError>)
    ensures
        r == header_prefix_of(header@),
{
    proof {
        crate::bytes::lemma_pow256();
    }
    if header.len() < 4 {
        return Err(HeaderError::Truncated);
    }
    let magic: u64 = get_be(header, 0, 4);
    if magic != MAGIC_CON as u64 && magic != MAGIC_LIVE as u64 && magic != MAGIC_PIRS as u64 {
        return Err(HeaderError::BadMagic);
    }
    if header.len() < 0x348 {
        return Err(HeaderError::Truncated);
    }
    let raw: u32 = get_be(header, 0x344, 4) as u32;
    Ok(
        HeaderPrefix {
            header_size: get_be(header, 0x340, 4) as u32,
            raw_content_type: raw,
            content_type: ContentType::from_u32(raw),
        },
    )
}

/// The eight bytes that start a PNG file.
pub open spec fn png_magic() -> Seq<u8> {
    seq![0x89u8, 0x50, 0x4E, 0x47, 0x0D, 0x0A, 0x1A, 0x0A]
}

/// The image of `size` bytes at offset `at`: none if it is empty, over `max`, cut short or
/// no PNG.
pub open spec fn thumbnail_of(h: Seq<u8>, at: int, size: int, max: int) -> Option<Seq<u8>> {
    if 8 <= size <= max && at + size <= h.len() && field(h, at, 8) == png_magic() {
        Some(field(h, at, size))
    } else {
        None
    }
}

fn is_png_at(header: &[u8], at: usize) -> (r: bool)
    requires
        at + 8 <= header.len(),
    ensures
        r == (field(header@, at as int, 8) == png_magic()),
{
    let r = header[at] == 0x89 && header[at + 1] == 0x50 && header[at + 2] == 0x4E && header[at + 3]
        == 0x47 && header[at + 4] == 0x0D && header[at + 5] == 0x0A && header[at + 6] == 0x1A
        && header[at + 7] == 0x0A;
    proof {
        let f = field(header@, at as int, 8);
        let p = png_magic();
        assert(forall|i: int| 0 <= i < 8 ==> f[i] == header@[at + i]);
        if r {
            assert(f =~= p);
        } else if f == p {
            assert(f[0] == p[0] && f[1] == p[1] && f[2] == p[2] && f[3] == p[3]);
            assert(f[4] == p[4] && f[5] == p[5] && f[6] == p[6] && f[7] == p[7]);
        }
    }
    r
}

fn read_one_thumbnail(header: &[u8], at: usize, size: u32, max_size: u32) -> (r: Option<Vec<u8>>)
    requires
        at <= 0x1_0000,
        max_size <= 0x1_0000,
    ensures
        opt_view(r) == thumbnail_of(header@, at as int, size as int, max_size as int),
{
    if size == 0 || size > max_size || size < 8 || at + size as usize > header.len() {
        return None;
    }
    if is_png_at(header, at) {
        Some(copy_range(header, at, at + size as usize))
    } else {
        None
    }
}

/// The two images embedded in a header.
pub struct HeaderThumbnails {
    pub thumbnail: Option<Vec<u8>>,
    pub title_thumbnail: Option<Vec<u8>>,
}

/// The largest image a header of this metadata version may hold.
pub open spec fn thumbnail_max(h: Seq<u8>) -> int {
    if be_val(field(h, 0x348, 4)) == 2 {
        0x3D00
    } else {
        0x4000
    }
}

/// The two embedded images. A header that ends before the size fields has none.
pub fn read_header_thumbnails(header: &[u8]) -> (r: HeaderThumbnails)
    ensures
        header@.len() < OFF_THUMBNAIL_IMAGE ==> r.thumbnail is None && r.title_thumbnail is None,
        header@.len() >= OFF_THUMBNAIL_IMAGE ==> {
            &&& opt_view(r.thumbnail) == thumbnail_of(
                header@,
                0x171A,
                be_val(field(header@, 0x1712, 4)) as int,
                thumbnail_max(header@),
            )
            &&& opt_view(r.title_thumbnail) == thumbnail_of(
                header@,
                0x571A,
                be_val(field(header@, 0x1716, 4)) as int,
                thumbnail_max(header@),
            )
        },
{
    proof {
        crate::bytes::lemma_pow256();
    }
    if header.len() < OFF_THUMBNAIL_IMAGE {
        return HeaderThumbnails { thumbnail: None, title_thumbnail: None };
    }
    let max_size: u32 = if get_be(header, OFF_METADATA_VERSION, 4) == 2 {
        THUMBNAIL_MAX_SIZE_V2
    } else {
        THUMBNAIL_MAX_SIZE_V1
    };
    let size: u32 = get_be(header, OFF_THUMBNAIL_SIZE, 4) as u32;
    let title_size: u32 = get_be(header, OFF_TITLE_THUMBNAIL_SIZE, 4) as u32;
    HeaderThumbnails {
        thumbnail: read_one_thumbnail(header, OFF_THUMBNAIL_IMAGE, size, max_size),
        title_thumbnail: read_one_thumbnail(
            header,
            OFF_TITLE_THUMBNAIL_IMAGE,
            title_size,
            max_size,
        ),
    }
}

/// The big-endian 16-bit units from offset `at`, up to the first zero unit and at most `n`.
pub open spec fn units_at(h: Seq<u8>, at: int, n: nat) -> Seq<u16>
    decreases n,
{
    if n == 0 || be_val(field(h, at, 2)) == 0 {
        Seq::empty()
    } else {
        seq![be_val(field(h, at, 2)) as u16] + units_at(h, at + 2, (n - 1) as nat)
    }
}

fn read_units(header: &[u8], at: usize, n: usize) -> (r: Vec<u16>)
    requires
        at + 2 * n <= header.len(),
    ensures
        r@ == units_at(header@, at as int, n as nat),
{
    proof {
        crate::bytes::lemma_pow256();
    }
    let mut r: Vec<u16> = Vec::new();
    let mut i: usize = 0;
    assert(r@ + units_at(header@, at as int, n as nat) =~= units_at(header@, at as int, n as nat));
    while i < n
        invariant
            i <= n,
            at + 2 * n <= header.len(),
            crate::bytes::pow256(2) == 0x1_0000,
            units_at(header@, at as int, n as nat) == r@ + units_at(
                header@,
                at + 2 * i,
                (n - i) as nat,
            ),
        decreases n - i,
    {
        let u: u16 = get_be(header, at + 2 * i, 2) as u16;
        if u == 0 {
            assert(r@ + units_at(header@, at + 2 * i, (n - i) as nat) =~= r@);
            return r;
        }
        let ghost before = r@;
        r.push(u);
        i = i + 1;
        assert(before + (seq![u] + units_at(header@, at + 2 * i, (n - i) as nat)) =~= r@
            + units_at(header@, at + 2 * i, (n - i) as nat));
    }
    assert(r@ + units_at(header@, at + 2 * i, 0) =~= r@);
    r
}

/// The display name in the header bytes `h`; none if the field is cut short or empty.
pub open spec fn display_name_of(h: Seq<u8>) -> Option<Seq<char>> {
    if h.len() < 0x511 || units_at(h, 0x411, 0x80).len() == 0 {
        None
    } else {
        Some(utf16_lossy(units_at(h, 0x411, 0x80)))
    }
}

/// The display name, up to its terminating zero.
pub fn read_display_name(header: &[u8]) -> (r: Option<String>)
    ensures
        match r {
            Some(s) => display_name_of(header@) == Some(s@),
            None => display_name_of(header@) is None,
        },
{
    if header.len() < 0x511 {
        return None;
    }
    let units = read_units(header, OFF_DISPLAY_NAME, DISPLAY_NAME_MAX_UNITS);
    if units.len() == 0 {
        None
    } else {
        Some(decode_utf16_lossy(units.as_slice()))
    }
}

#[derive(Clone, Copy, Debug, PartialEq, Eq)]
pub struct AvatarItemMetadata {
    pub sub_category: u32,
    pub colorizable: u32,
    pub guid: [u8; 16],
    pub skeleton_version: u8,
}

/// `s` with the avatar-item fields of `m` at their offsets, in little-endian order.
pub open spec fn with_avatar_item(s: Seq<u8>, m: AvatarItemMetadata) -> Seq<u8> {
    let s = overwrite(s, 0x3D9, le_bytes(m.sub_category as nat, 4));
    let s = overwrite(s, 0x3DD, le_bytes(m.colorizable as nat, 4));
    let s = overwrite(s, 0x3E1, m.guid@);
    overwrite(s, 0x3F1, le_bytes(m.skeleton_version as nat, 1))
}

/// What the header bytes `h` say of the avatar item: none if the fields are cut short or the
/// skeleton version is none of 1, 2 and 3.
pub open spec fn avatar_item_reads(h: Seq<u8>, r: Option<AvatarItemMetadata>) -> bool {
    if h.len() < 0x3F2 || !(1 <= h[0x3F1] <= 3) {
        r is None
    } else {
        r matches Some(m) && {
            &&& m.sub_category == le_val(field(h, 0x3D9, 4))
            &&& m.colorizable == le_val(field(h, 0x3DD, 4))
            &&& m.guid@ == field(h, 0x3E1, 16)
            &&& m.skeleton_version == h[0x3F1]
        }
    }
}

pub fn read_avatar_item_metadata(header: &[u8]) -> (r: Option<AvatarItemMetadata>)
    ensures
        avatar_item_reads(header@, r),
{
    proof {
        crate::bytes::lemma_pow256();
    }
    if header.len() < 0x3F2 {
        return None;
    }
    let skeleton_version: u8 = header[0x3F1];
    if skeleton_version < 1 || skeleton_version > 3 {
        return None;
    }
    Some(
        AvatarItemMetadata {
            sub_category: get_le(header, 0x3D9, 4) as u32,
            colorizable: get_le(header, 0x3DD, 4) as u32,
            guid: take_array(header, 0x3E1),
            skeleton_version,
        },
    )
}

/// Writes the avatar-item fields over a header.
pub fn write_avatar_item_metadata(header: &mut Vec<u8>, m: &AvatarItemMetadata)
    requires
        old(header)@.len() >= 0x3F2,
    ensures
        final(header)@ == with_avatar_item(old(header)@, *m),
{
    write_le(header, 0x3D9, m.sub_category as u64, 4);
    write_le(header, 0x3DD, m.colorizable as u64, 4);
    write_at(header, 0x3E1, m.guid.as_slice());
    write_le(header, 0x3F1, m.skeleton_version as u64, 1);
}

/// Avatar-item fields that were written read back, if their skeleton version is one a reader
/// accepts.
pub proof fn avatar_item_round_trips(
    header: Seq<u8>,
    m: AvatarItemMetadata,
    r: Option<AvatarItemMetadata>,
)
    requires
        header.len() >= 0x3F2,
        avatar_item_reads(with_avatar_item(header, m), r),
    ensures
        r == (if 1 <= m.skeleton_version <= 3 {
            Some(m)
        } else {
            None
        }),
{
    let h = with_avatar_item(header, m);
    crate::bytes::lemma_pow256();
    broadcast use crate::bytes::lemma_le_round_trip;

    assert(le_val(field(h, 0x3F1, 1)) == m.skeleton_version);
    reveal_with_fuel(le_val, 2);
    assert(field(h, 0x3F1, 1)[0] == h[0x3F1]);
    if r is Some {
        assert(r->0.guid =~= m.guid);
    }
}

#[derive(Clone, Copy, Debug, PartialEq, Eq)]
pub struct VideoMetadata {
    pub series_id: [u8; 16],
    pub season_id: [u8; 16],
    pub season_number: u16,
    pub episode_number: u16,
}

/// `s` with the video fields of `m` at their offsets, in big-endian order.
pub open spec fn with_video(s: Seq<u8>, m: VideoMetadata) -> Seq<u8> {
    let s = overwrite(s, 0x3D9, m.series_id@);
    let s = overwrite(s, 0x3E9, m.season_id@);
    let s = overwrite(s, 0x3F9, be_bytes(m.season_number as nat, 2));
    overwrite(s, 0x3FB, be_bytes(m.episode_number as nat, 2))
}

/// What the header bytes `h` say of the video: none if the fields are cut short.
pub open spec fn video_reads(h: Seq<u8>, r: Option<VideoMetadata>) -> bool {
    if h.len() < 0x3FD {
        r is None
    } else {
        r matches Some(m) && {
            &&& m.series_id@ == field(h, 0x3D9, 16)
            &&& m.season_id@ == field(h, 0x3E9, 16)
            &&& m.season_number == be_val(field(h, 0x3F9, 2))
            &&& m.episode_number == be_val(field(h, 0x3FB, 2))
        }
    }
}

pub fn read_video_metadata(header: &[u8]) -> (r: Option<VideoMetadata>)
    ensures
        video_reads(header@, r),
{
    proof {
        crate::bytes::lemma_pow256();
    }
    if header.len() < 0x3FD {
        return None;
    }
    Some(
        VideoMetadata {
            series_id: take_array(header, 0x3D9),
            season_id: take_array(header, 0x3E9),
            season_number: get_be(header, 0x3F9, 2) as u16,
            episode_number: get_be(header, 0x3FB, 2) as u16,
        },
    )
}

/// Writes the video fields over a header.
pub fn write_video_metadata(header: &mut Vec<u8>, m: &VideoMetadata)
    requires
        old(header)@.len() >= 0x3FD,
    ensures
        final(header)@ == with_video(old(header)@, *m),
{
    write_at(header, 0x3D9, m.series_id.as_slice());
    write_at(header, 0x3E9, m.season_id.as_slice());
    write_be(header, 0x3F9, m.season_number as u64, 2);
    write_be(header, 0x3FB, m.episode_number as u64, 2);
}

/// Video fields that were written read back.
pub proof fn video_round_trips(header: Seq<u8>, m: VideoMetadata, r: Option<VideoMetadata>)
    requires
        header.len() >= 0x3FD,
        video_reads(with_video(header, m), r),
    ensures
        r == Some(m),
{
    crate::bytes::lemma_pow256();
    broadcast use crate::bytes::lemma_be_round_trip;

    assert(r->0.series_id =~= m.series_id);
    assert(r->0.season_id =~= m.season_id);
}

/// A version in four packed fields.
#[derive(Clone, Copy, Debug, PartialEq, Eq)]
pub struct InstallerVersion {
    /// 4-bit field, stored widened to `u8`.
    pub major: u8,
    /// 4-bit field, stored widened to `u8`.
    pub minor: u8,
    pub build: u16,
    pub revision: u8,
}

/// The version packed in `raw`: 4 bits major, 4 bits minor, 16 bits build, 8 bits revision.
pub open spec fn version_of(raw: u32) -> InstallerVersion {
    InstallerVersion {
        major: (raw / 0x1000_0000) as u8,
        minor: (raw / 0x100_0000 % 16) as u8,
        build: (raw / 0x100 % 0x1_0000) as u16,
        revision: (raw % 0x100) as u8,
    }
}

/// `v` packed in 32 bits, the low four bits of major and minor.
pub open spec fn packed_version(v: InstallerVersion) -> u32 {
    ((v.major % 16) * 0x1000_0000 + (v.minor % 16) * 0x100_0000 + v.build * 0x100
        + v.revision) as u32
}

impl InstallerVersion {
    pub fn from_packed(raw: u32) -> (r: InstallerVersion)
        ensures
            r == version_of(raw),
    {
        InstallerVersion {
            major: (raw / 0x1000_0000) as u8,
            minor: (raw / 0x100_0000 % 16) as u8,
            build: (raw / 0x100 % 0x1_0000) as u16,
            revision: (raw % 0x100) as u8,
        }
    }

    pub fn to_packed(self) -> (r: u32)
        ensures
            r == packed_version(self),
    {
        (self.major % 16) as u32 * 0x1000_0000 + (self.minor % 16) as u32 * 0x100_0000 + self.build
            as u32 * 0x100 + self.revision as u32
    }
}

/// Every packed version unpacks and packs to itself.
pub proof fn packed_version_round_trips(raw: u32)
    ensures
        packed_version(version_of(raw)) == raw,
{
}

/// A version whose major and minor fit their four bits packs and unpacks to itself.
pub proof fn version_round_trips(v: InstallerVersion)
    requires
        v.major < 16,
        v.minor < 16,
    ensures
        version_of(packed_version(v)) == v,
{
    let (a, b, c, d) = (v.major as int, v.minor as int, v.build as int, v.revision as int);
    let p = a * 0x1000_0000 + b * 0x100_0000 + c * 0x100 + d;
    assert(packed_version(v) as int == p);
    assert(p % 0x100 == d);
    assert(p / 0x100 == a * 0x10_0000 + b * 0x1_0000 + c);
    assert(p / 0x100 % 0x1_0000 == c);
    assert(p / 0x100_0000 == a * 16 + b);
    assert(p / 0x100_0000 % 16 == b);
    assert(p / 0x1000_0000 == a);
}

#[derive(Clone, Copy, Debug, PartialEq, Eq, Structural)]
pub enum ProgressCacheKind {
    SystemUpdate,
    TitleUpdate,
    TitleContent,
}

/// The optional trailer after the header images.
#[derive(Clone, Debug, PartialEq, Eq)]
pub enum InstallerMetadata {
    /// A trailer that holds nothing.
    Empty,
    /// Of a system update or a title update.
    Version {
        is_title_update: bool,
        base_version: InstallerVersion,
        version: InstallerVersion,
    },
    ProgressCache {
        kind: ProgressCacheKind,
        resume_state: u32,
        current_file_index: u32,
        current_file_offset: u64,
        bytes_processed: u64,
        last_modified_high: u32,
        last_modified_low: u32,
        cab_resume_data: Box<[u8; 5584]>,
    },
}

impl InstallerMetadata {
    /// The trailer's type field.
    pub open spec fn installer_type(self) -> u32 {
        match self {
            InstallerMetadata::Empty => INSTALLER_NONE,
            InstallerMetadata::Version { is_title_update, .. } => if is_title_update {
                INSTALLER_TITLE_UPDATE
            } else {
                INSTALLER_SYSTEM_UPDATE
            },
            InstallerMetadata::ProgressCache { kind, .. } => match kind {
                ProgressCacheKind::SystemUpdate => INSTALLER_SYSTEM_UPDATE_PROGRESS_CACHE,
                ProgressCacheKind::TitleUpdate => INSTALLER_TITLE_UPDATE_PROGRESS_CACHE,
                ProgressCacheKind::TitleContent => INSTALLER_TITLE_CONTENT_PROGRESS_CACHE,
            },
        }
    }

    /// The trailer's type field.
    pub fn raw_installer_type(&self) -> (r: u32)
        ensures
            r == self.installer_type(),
    {
        match self {
            InstallerMetadata::Empty => INSTALLER_NONE,
            InstallerMetadata::Version { is_title_update, .. } => if *is_title_update {
                INSTALLER_TITLE_UPDATE
            } else {
                INSTALLER_SYSTEM_UPDATE
            },
            InstallerMetadata::ProgressCache { kind, .. } => match kind {
                ProgressCacheKind::SystemUpdate => INSTALLER_SYSTEM_UPDATE_PROGRESS_CACHE,
                ProgressCacheKind::TitleUpdate => INSTALLER_TITLE_UPDATE_PROGRESS_CACHE,
                ProgressCacheKind::TitleContent => INSTALLER_TITLE_CONTENT_PROGRESS_CACHE,
            },
        }
    }
}

/// `s` with the trailer `m` at its offset.
pub open spec fn with_installer(s: Seq<u8>, m: InstallerMetadata) -> Seq<u8> {
    let s = overwrite(s, 0x971A, be_bytes(m.installer_type() as nat, 4));
    match m {
        InstallerMetadata::Empty => s,
        InstallerMetadata::Version { base_version, version, .. } => overwrite(
            overwrite(s, 0x971E, be_bytes(packed_version(base_version) as nat, 4)),
            0x9722,
            be_bytes(packed_version(version) as nat, 4),
        ),
        InstallerMetadata::ProgressCache {
            resume_state,
            current_file_index,
            current_file_offset,
            bytes_processed,
            last_modified_high,
            last_modified_low,
            cab_resume_data,
            ..
        } => {
            let s = overwrite(s, 0x971E, be_bytes(resume_state as nat, 4));
            let s = overwrite(s, 0x9722, be_bytes(current_file_index as nat, 4));
            let s = overwrite(s, 0x9726, be_bytes(current_file_offset as nat, 8));
            let s = overwrite(s, 0x972E, be_bytes(bytes_processed as nat, 8));
            let s = overwrite(s, 0x9736, be_bytes(last_modified_high as nat, 4));
            let s = overwrite(s, 0x973A, be_bytes(last_modified_low as nat, 4));
            overwrite(s, 0x973E, cab_resume_data@)
        },
    }
}

/// What the header bytes `h` say of the trailer: none if it is cut short or of unknown type.
pub open spec fn installer_reads(h: Seq<u8>, r: Option<InstallerMetadata>) -> bool {
    let t = be_val(field(h, 0x971A, 4));
    if h.len() < 0x971E {
        r is None
    } else if t == INSTALLER_NONE {
        r == Some(InstallerMetadata::Empty)
    } else if t == INSTALLER_SYSTEM_UPDATE || t == INSTALLER_TITLE_UPDATE {
        if h.len() < 0x9726 {
            r is None
        } else {
            r == Some(
                InstallerMetadata::Version {
                    is_title_update: t == INSTALLER_TITLE_UPDATE,
                    base_version: version_of(be_val(field(h, 0x971E, 4)) as u32),
                    version: version_of(be_val(field(h, 0x9722, 4)) as u32),
                },
            )
        }
    } else if t == INSTALLER_SYSTEM_UPDATE_PROGRESS_CACHE || t
        == INSTALLER_TITLE_UPDATE_PROGRESS_CACHE || t == INSTALLER_TITLE_CONTENT_PROGRESS_CACHE {
        if h.len() < 0xAD0E {
            r is None
        } else {
            r matches Some(
                InstallerMetadata::ProgressCache {
                    kind,
                    resume_state,
                    current_file_index,
                    current_file_offset,
                    bytes_processed,
                    last_modified_high,
                    last_modified_low,
                    cab_resume_data,
                },
            ) && {
                &&& kind == (if t == INSTALLER_SYSTEM_UPDATE_PROGRESS_CACHE {
                    ProgressCacheKind::SystemUpdate
                } else if t == INSTALLER_TITLE_UPDATE_PROGRESS_CACHE {
                    ProgressCacheKind::TitleUpdate
                } else {
                    ProgressCacheKind::TitleContent
                })
                &&& resume_state == be_val(field(h, 0x971E, 4))
                &&& current_file_index == be_val(field(h, 0x9722, 4))
                &&& current_file_offset == be_val(field(h, 0x9726, 8))
                &&& bytes_processed == be_val(field(h, 0x972E, 8))
                &&& last_modified_high == be_val(field(h, 0x9736, 4))
                &&& last_modified_low == be_val(field(h, 0x973A, 4))
                &&& cab_resume_data@ == field(h, 0x973E, 0x15D0)
            }
        }
    } else {
        r is None
    }
}

/// Whether a header that ends at `first_hash_table_address` has room for a trailer.
pub open spec fn has_installer_room(first_hash_table_address: int) -> bool {
    first_hash_table_address >= 0x971A + 0x15F4
}

/// Reads the trailer, if the header has room for one.
pub fn read_installer_metadata(header: &[u8], first_hash_table_address: u64) -> (r: Option<
    InstallerMetadata,
>)
    ensures
        if has_installer_room(first_hash_table_address as int) {
            installer_reads(header@, r)
        } else {
            r is None
        },
{
    if first_hash_table_address < OFF_INSTALLER_METADATA as u64 + INSTALLER_TRAILER_GATE_LEN {
        return None;
    }
    try_read_installer_metadata(header)
}

fn try_read_installer_metadata(header: &[u8]) -> (r: Option<InstallerMetadata>)
    ensures
        installer_reads(header@, r),
{
    proof {
        crate::bytes::lemma_pow256();
    }
    if header.len() < 0x971E {
        return None;
    }
    let t: u32 = get_be(header, OFF_INSTALLER_METADATA, 4) as u32;
    if t == INSTALLER_NONE {
        return Some(InstallerMetadata::Empty);
    }
    if t == INSTALLER_SYSTEM_UPDATE || t == INSTALLER_TITLE_UPDATE {
        if header.len() < 0x9726 {
            return None;
        }
        return Some(
            InstallerMetadata::Version {
                is_title_update: t == INSTALLER_TITLE_UPDATE,
                base_version: InstallerVersion::from_packed(get_be(header, 0x971E, 4) as u32),
                version: InstallerVersion::from_packed(get_be(header, 0x9722, 4) as u32),
            },
        );
    }
    if t == INSTALLER_SYSTEM_UPDATE_PROGRESS_CACHE || t == INSTALLER_TITLE_UPDATE_PROGRESS_CACHE
        || t == INSTALLER_TITLE_CONTENT_PROGRESS_CACHE {
        if header.len() < 0xAD0E {
            return None;
        }
        let kind = if t == INSTALLER_SYSTEM_UPDATE_PROGRESS_CACHE {
            ProgressCacheKind::SystemUpdate
        } else if t == INSTALLER_TITLE_UPDATE_PROGRESS_CACHE {
            ProgressCacheKind::TitleUpdate
        } else {
            ProgressCacheKind::TitleContent
        };
        return Some(
            InstallerMetadata::ProgressCache {
                kind,
                resume_state: get_be(header, 0x971E, 4) as u32,
                current_file_index: get_be(header, 0x9722, 4) as u32,
                current_file_offset: get_be(header, 0x9726, 8),
                bytes_processed: get_be(header, 0x972E, 8),
                last_modified_high: get_be(header, 0x9736, 4) as u32,
                last_modified_low: get_be(header, 0x973A, 4) as u32,
                cab_resume_data: Box::new(take_array(header, 0x973E)),
            },
        );
    }
    None
}

/// Whether a header of `len` bytes has room for the trailer `m`.
pub open spec fn installer_fits(len: int, m: InstallerMetadata) -> bool {
    len >= (match m {
        InstallerMetadata::Empty => 0x971E,
        InstallerMetadata::Version { .. } => 0x9726,
        InstallerMetadata::ProgressCache { .. } => 0xAD0Eint,
    })
}

/// Writes the trailer over a header that has room for it.
pub fn write_installer_metadata(header: &mut Vec<u8>, m: &InstallerMetadata)
    requires
        installer_fits(old(header)@.len() as int, *m),
    ensures
        final(header)@ == with_installer(old(header)@, *m),
{
    write_be(header, OFF_INSTALLER_METADATA, m.raw_installer_type() as u64, 4);
    match m {
        InstallerMetadata::Empty => {},
        InstallerMetadata::Version { base_version, version, .. } => {
            write_be(header, 0x971E, base_version.to_packed() as u64, 4);
            write_be(header, 0x9722, version.to_packed() as u64, 4);
        },
        InstallerMetadata::ProgressCache {
            resume_state,
            current_file_index,
            current_file_offset,
            bytes_processed,
            last_modified_high,
            last_modified_low,
            cab_resume_data,
            ..
        } => {
            write_be(header, 0x971E, *resume_state as u64, 4);
            write_be(header, 0x9722, *current_file_index as u64, 4);
            write_be(header, 0x9726, *current_file_offset, 8);
            write_be(header, 0x972E, *bytes_processed, 8);
            write_be(header, 0x9736, *last_modified_high as u64, 4);
            write_be(header, 0x973A, *last_modified_low as u64, 4);
            write_at(header, 0x973E, cab_resume_data.as_slice());
        },
    }
}

/// A trailer that was written reads back, versions in their four-bit majors and minors.
pub proof fn installer_round_trips(
    header: Seq<u8>,
    m: InstallerMetadata,
    r: Option<InstallerMetadata>,
)
    requires
        installer_fits(header.len() as int, m),
        installer_reads(with_installer(header, m), r),
        m matches InstallerMetadata::Version { base_version, version, .. } ==> {
            &&& base_version.major < 16
            &&& base_version.minor < 16
            &&& version.major < 16
            &&& version.minor < 16
        },
    ensures
        r == Some(m),
{
    let h = with_installer(header, m);
    crate::bytes::lemma_pow256();
    broadcast use crate::bytes::lemma_be_round_trip;

    assert(be_val(field(h, 0x971A, 4)) == m.installer_type());
    match m {
        InstallerMetadata::Empty => {},
        InstallerMetadata::Version { base_version, version, .. } => {
            version_round_trips(base_version);
            version_round_trips(version);
        },
        InstallerMetadata::ProgressCache { cab_resume_data, .. } => {
            if let Some(InstallerMetadata::ProgressCache { cab_resume_data: d, .. }) = r {
                assert(*d =~= *cab_resume_data);
                assert(d == cab_resume_data);
            }
        },
    }
}

/// A listing entry has 64 bytes, its length byte at 40 and its directory at 50.
pub proof fn entries_have_64_bytes()
    ensures
        FILE_ENTRY_SIZE == 64,
        NAME_LEN_OFFSET == 40,
        PATH_INDICATOR_OFFSET == 50,
{
}

} // verus!
