//! The header of a package that is written.
use crate::bytes::{
    be_bytes, be_val, field, le_bytes, overwrite, write_at, write_be, zeroed, zeros,
};
use crate::stfs::format::{
    avatar_item_reads, avatar_item_round_trips, content_type_of, display_name_of, header_prefix_of,
    installer_fits, installer_reads, installer_round_trips, metadata_image, metadata_reads,
    metadata_round_trips, thumbnail_max, thumbnail_of, units_at, video_reads, video_round_trips,
    with_avatar_item, with_installer, with_video, write_avatar_item_metadata,
    write_installer_metadata, write_video_metadata, AvatarItemMetadata, HeaderError, HeaderPrefix,
    InstallerMetadata, StfsMetadata, StfsVolumeDescriptor, VideoMetadata, DISPLAY_NAME_MAX_UNITS,
    MAGIC_CON, OFF_DISPLAY_NAME, OFF_LICENSE_ENTRIES_1_15,
};
use crate::stfs::plan::StfsLayout;
use crate::utils::text::{encode_utf16, utf16_of, utf16_round_trips};
use vstd::prelude::*;

verus! {

broadcast use crate::bytes::group_fields;

/// Block separation of every package that is written: two copies of each table.
pub const DEFAULT_BLOCK_SEPARATION: u8 = 0x00;

/// What a title's executable says of itself.
#[derive(Clone, Copy, Debug, PartialEq, Eq)]
pub struct TitleExecutionInfo {
    pub media_id: u32,
    pub version: u32,
    pub base_version: u32,
    pub title_id: u32,
    pub platform: u8,
    pub executable_type: u8,
    pub disc_number: u8,
    pub disc_count: u8,
    pub save_game_id: u32,
}

/// The four identity fields, written as one group.
#[derive(Clone, Copy)]
pub struct HeaderIdentity<'a> {
    pub console_id: [u8; 5],
    pub profile_id: [u8; 8],
    pub device_id: &'a [u8; 20],
    pub online_creator: [u8; 8],
}

/// The bytes of 16-bit units, each most significant byte first.
pub open spec fn units_bytes(u: Seq<u16>) -> Seq<u8>
    decreases u.len(),
{
    if u.len() == 0 {
        Seq::empty()
    } else {
        units_bytes(u.drop_last()) + be_bytes(u.last() as nat, 2)
    }
}

/// The first 0x80 units of `u`.
pub open spec fn first_units(u: Seq<u16>) -> Seq<u16> {
    if u.len() <= 0x80 {
        u
    } else {
        u.take(0x80)
    }
}

/// `m` is the fixed region of a package with this plan, identity and top hash.
pub open spec fn is_header_metadata(
    m: StfsMetadata,
    layout: StfsLayout,
    content_type: u32,
    title_id: u32,
    info: Option<TitleExecutionInfo>,
    identity: HeaderIdentity<'_>,
    top_hash: Seq<u8>,
) -> bool {
    &&& m.license_entries_1_15@ == zeros(0xF0)
    &&& m.header_hash@ == zeros(20)
    &&& m.header_size == layout.header_size
    &&& m.content_type == content_type
    &&& m.metadata_version == 0
    &&& m.title_id == title_id
    &&& match info {
        Some(i) => {
            &&& m.media_id == i.media_id
            &&& m.platform == i.platform
            &&& m.executable_type == i.executable_type
            &&& m.disc_number == i.disc_number
            &&& m.disc_count == i.disc_count
            &&& m.save_game_id == i.save_game_id
        },
        None => {
            &&& m.media_id == 0
            &&& m.platform == 0
            &&& m.executable_type == 0
            &&& m.disc_number == 0
            &&& m.disc_count == 0
            &&& m.save_game_id == 0
        },
    }
    &&& m.console_id == identity.console_id
    &&& m.profile_id == identity.profile_id
    &&& m.online_creator == identity.online_creator
    &&& m.device_id == *identity.device_id
    &&& m.volume_descriptor.size == 0x24
    &&& m.volume_descriptor.block_separation == DEFAULT_BLOCK_SEPARATION
    &&& m.volume_descriptor.file_table_block_count == layout.file_table_block_count
    &&& m.volume_descriptor.file_table_block_num == layout.file_table_block_num
    &&& m.volume_descriptor.top_hash_table_hash@ == top_hash
    &&& m.volume_descriptor.allocated_block_count == layout.total_blocks
}

/// A header of `len` bytes that holds exactly these fields, zero everywhere else.
pub open spec fn header_image(
    len: nat,
    m: StfsMetadata,
    display_name: Option<Seq<char>>,
    avatar: Option<AvatarItemMetadata>,
    video: Option<VideoMetadata>,
    installer: Option<InstallerMetadata>,
) -> Seq<u8> {
    let s = overwrite(zeros(len), 0, be_bytes(MAGIC_CON as nat, 4));
    let s = overwrite(s, 0x22C, field(metadata_image(m), 0x22C, 0x1E5));
    let s = match display_name {
        Some(name) => overwrite(s, 0x411, units_bytes(first_units(utf16_of(name)))),
        None => s,
    };
    let s = match avatar {
        Some(a) => with_avatar_item(s, a),
        None => s,
    };
    let s = match video {
        Some(v) => with_video(s, v),
        None => s,
    };
    match installer {
        Some(i) => with_installer(s, i),
        None => s,
    }
}

pub open spec fn opt_str(o: Option<&str>) -> Option<Seq<char>> {
    match o {
        Some(s) => Some(s@),
        None => None,
    }
}

pub open spec fn opt_deref<T>(o: Option<&T>) -> Option<T> {
    match o {
        Some(t) => Some(*t),
        None => None,
    }
}

pub proof fn lemma_units_bytes_len(u: Seq<u16>)
    ensures
        units_bytes(u).len() == 2 * u.len(),
    decreases u.len(),
{
    if u.len() > 0 {
        lemma_units_bytes_len(u.drop_last());
    }
}

fn write_display_name(header: &mut Vec<u8>, name: &str)
    requires
        old(header)@.len() >= 0x511,
    ensures
        final(header)@ == overwrite(
            old(header)@,
            0x411,
            units_bytes(first_units(utf16_of(name@))),
        ),
{
    let units = encode_utf16(name);
    let n: usize = if units.len() < DISPLAY_NAME_MAX_UNITS {
        units.len()
    } else {
        DISPLAY_NAME_MAX_UNITS
    };
    let ghost u = first_units(utf16_of(name@));
    let ghost h = header@;
    let mut i: usize = 0;
    assert(u.take(0) =~= Seq::empty());
    assert(header@ =~= overwrite(h, 0x411, units_bytes(u.take(0))));
    while i < n
        invariant
            i <= n <= 0x80,
            n <= units@.len(),
            u.len() == n,
            forall|j: int| 0 <= j < n ==> u[j] == units@[j],
            header@.len() == h.len(),
            h.len() >= 0x511,
            header@ == overwrite(h, 0x411, units_bytes(u.take(i as int))),
        decreases n - i,
    {
        proof {
            lemma_units_bytes_len(u.take(i as int));
            assert(u.take(i + 1).drop_last() =~= u.take(i as int));
            assert(u.take(i + 1).last() == u[i as int]);
            lemma_units_bytes_len(u.take(i + 1));
        }
        write_be(header, OFF_DISPLAY_NAME + 2 * i, units[i] as u64, 2);
        i = i + 1;
        assert(header@ =~= overwrite(h, 0x411, units_bytes(u.take(i as int))));
    }
    assert(u.take(n as int) =~= u);
}

fn header_metadata(
    layout: &StfsLayout,
    content_type: u32,
    title_id: u32,
    execution_info: Option<&TitleExecutionInfo>,
    identity: HeaderIdentity<'_>,
    top_hash: &[u8; 20],
) -> (m: StfsMetadata)
    ensures
        is_header_metadata(
            m,
            *layout,
            content_type,
            title_id,
            opt_deref(execution_info),
            identity,
            top_hash@,
        ),
{
    let info = match execution_info {
        Some(i) => *i,
        None => TitleExecutionInfo {
            media_id: 0,
            version: 0,
            base_version: 0,
            title_id: 0,
            platform: 0,
            executable_type: 0,
            disc_number: 0,
            disc_count: 0,
            save_game_id: 0,
        },
    };
    let m = StfsMetadata {
        license_entries_1_15: [0u8; 240],
        header_hash: [0u8; 20],
        header_size: layout.header_size,
        content_type,
        metadata_version: 0,
        media_id: info.media_id,
        title_id,
        platform: info.platform,
        executable_type: info.executable_type,
        disc_number: info.disc_number,
        disc_count: info.disc_count,
        save_game_id: info.save_game_id,
        console_id: identity.console_id,
        profile_id: identity.profile_id,
        volume_descriptor: StfsVolumeDescriptor {
            size: 0x24,
            block_separation: DEFAULT_BLOCK_SEPARATION,
            file_table_block_count: layout.file_table_block_count,
            file_table_block_num: layout.file_table_block_num,
            top_hash_table_hash: *top_hash,
            allocated_block_count: layout.total_blocks,
        },
        online_creator: identity.online_creator,
        device_id: *identity.device_id,
    };
    assert(m.license_entries_1_15@ =~= zeros(0xF0));
    assert(m.header_hash@ =~= zeros(20));
    m
}

/// The header of a package, padded with zeros to its first hash table.
pub fn build_header(
    layout: &StfsLayout,
    content_type: u32,
    title_id: u32,
    execution_info: Option<&TitleExecutionInfo>,
    display_name: Option<&str>,
    avatar_item_metadata: Option<AvatarItemMetadata>,
    video_metadata: Option<VideoMetadata>,
    installer_metadata: Option<&InstallerMetadata>,
    identity: HeaderIdentity<'_>,
    top_hash: &[u8; 20],
) -> (r: Vec<u8>)
    requires
        layout.wf(),
        installer_metadata matches Some(i) ==> installer_fits(
            layout.first_hash_table_address as int,
            *i,
        ),
    ensures
        r@.len() == layout.first_hash_table_address,
        exists|m: StfsMetadata|
            #[trigger] is_header_metadata(
                m,
                *layout,
                content_type,
                title_id,
                opt_deref(execution_info),
                identity,
                top_hash@,
            ) && r@ == header_image(
                layout.first_hash_table_address as nat,
                m,
                opt_str(display_name),
                avatar_item_metadata,
                video_metadata,
                opt_deref(installer_metadata),
            ),
{
    let mut buf: Vec<u8> = zeroed(layout.first_hash_table_address as usize);
    write_be(&mut buf, 0, MAGIC_CON as u64, 4);
    let m = header_metadata(
        layout,
        content_type,
        title_id,
        execution_info,
        identity,
        top_hash,
    );
    m.write_at(&mut buf);
    if let Some(name) = display_name {
        write_display_name(&mut buf, name);
    }
    if let Some(a) = avatar_item_metadata {
        write_avatar_item_metadata(&mut buf, &a);
    }
    if let Some(v) = video_metadata {
        write_video_metadata(&mut buf, &v);
    }
    if let Some(i) = installer_metadata {
        write_installer_metadata(&mut buf, i);
    }
    assert(is_header_metadata(
        m,
        *layout,
        content_type,
        title_id,
        opt_deref(execution_info),
        identity,
        top_hash@,
    ));
    buf
}

/// Writes the license entries that a signed header keeps.
pub fn write_license_entries(header: &mut Vec<u8>, entries: &[u8; 240])
    requires
        old(header)@.len() >= OFF_DISPLAY_NAME,
    ensures
        final(header)@ == overwrite(old(header)@, 0x23C, entries@),
{
    write_at(header, OFF_LICENSE_ENTRIES_1_15, entries.as_slice());
}

proof fn lemma_units_read_back(h: Seq<u8>, at: int, u: Seq<u16>, n: nat)
    requires
        0 <= at,
        at + 2 * n <= h.len(),
        u.len() <= n,
        forall|j: int| 0 <= j < u.len() ==> u[j] != 0,
        forall|j: int| 0 <= j < u.len() ==> be_val(#[trigger] field(h, at + 2 * j, 2)) == u[j],
        u.len() < n ==> be_val(field(h, at + 2 * u.len(), 2)) == 0,
    ensures
        units_at(h, at, n) == u,
    decreases n,
{
    if n == 0 || u.len() == 0 {
        if n > 0 {
            assert(at + 2 * u.len() == at);
        }
        assert(units_at(h, at, n) =~= u);
    } else {
        let v = u.drop_first();
        assert(be_val(field(h, at + 2 * 0, 2)) == u[0]);
        assert forall|j: int| 0 <= j < v.len() implies be_val(
            #[trigger] field(h, at + 2 + 2 * j, 2),
        ) == v[j] by {
            assert(at + 2 + 2 * j == at + 2 * (j + 1));
            assert(v[j] == u[j + 1]);
        }
        assert(at + 2 + 2 * v.len() == at + 2 * u.len());
        lemma_units_read_back(h, at + 2, v, (n - 1) as nat);
        assert(seq![u[0]] + v =~= u);
        assert(units_at(h, at, n) =~= u);
    }
}

pub proof fn lemma_units_bytes_at(u: Seq<u16>, j: int)
    requires
        0 <= j < u.len(),
    ensures
        units_bytes(u).len() == 2 * u.len(),
        field(units_bytes(u), 2 * j, 2) == be_bytes(u[j] as nat, 2),
    decreases u.len(),
{
    lemma_units_bytes_len(u);
    lemma_units_bytes_len(u.drop_last());
    if j == u.len() - 1 {
        assert(field(units_bytes(u), 2 * j, 2) =~= be_bytes(u[j] as nat, 2));
    } else {
        lemma_units_bytes_at(u.drop_last(), j);
        assert(field(units_bytes(u), 2 * j, 2) =~= field(units_bytes(u.drop_last()), 2 * j, 2));
    }
}

/// A display name of 1 to 0x80 UTF-16 units, none of them zero, reads back from the header.
pub proof fn display_name_reads_back(
    len: nat,
    m: StfsMetadata,
    name: Seq<char>,
    avatar: Option<AvatarItemMetadata>,
    video: Option<VideoMetadata>,
    installer: Option<InstallerMetadata>,
)
    requires
        len >= 0xA000,
        1 <= utf16_of(name).len() <= 0x80,
        forall|j: int| 0 <= j < utf16_of(name).len() ==> utf16_of(name)[j] != 0,
    ensures
        display_name_of(header_image(len, m, Some(name), avatar, video, installer)) == Some(name),
{
    let h = header_image(len, m, Some(name), avatar, video, installer);
    let u = utf16_of(name);
    let s0 = overwrite(
        overwrite(zeros(len), 0, be_bytes(MAGIC_CON as nat, 4)),
        0x22C,
        field(metadata_image(m), 0x22C, 0x1E5),
    );
    let s1 = overwrite(s0, 0x411, units_bytes(u));
    lemma_units_bytes_len(u);
    assert forall|x: int| 0x411 <= x && x + 2 <= 0x511 implies #[trigger] field(h, x, 2) == field(
        s1,
        x,
        2,
    ) by {
    }
    crate::bytes::lemma_pow256();
    assert forall|j: int| 0 <= j < u.len() implies be_val(#[trigger] field(h, 0x411 + 2 * j, 2))
        == u[j] by {
        lemma_units_bytes_at(u, j);
        assert(field(s1, 0x411 + 2 * j, 2) =~= field(units_bytes(u), 2 * j, 2));
        crate::bytes::lemma_be_round_trip(u[j] as nat, 2);
    }
    if u.len() < 0x80 {
        let x = 0x411 + 2 * u.len();
        assert(field(s1, x as int, 2) == field(s0, x as int, 2));
        assert(field(s0, x as int, 2) =~= be_bytes(0, 2)) by {
            reveal_with_fuel(be_bytes, 3);
        }
        crate::bytes::lemma_be_round_trip(0, 2);
    }
    lemma_units_read_back(h, 0x411, u, 0x80);
    utf16_round_trips(name);
}

/// Reading a header that was built gives back what it was built from: size and content type,
/// the fixed region, the metadata of an avatar item or a video, and the installer trailer.
#[verifier::rlimit(40)]
pub proof fn header_reads_back(
    len: nat,
    m: StfsMetadata,
    display_name: Option<Seq<char>>,
    avatar: Option<AvatarItemMetadata>,
    video: Option<VideoMetadata>,
    installer: Option<InstallerMetadata>,
)
    requires
        len >= 0xA000,
        m.volume_descriptor.file_table_block_num < 0x100_0000,
        installer matches Some(i) ==> installer_fits(len as int, i),
    ensures
        ({
            let h = header_image(len, m, display_name, avatar, video, installer);
            &&& header_prefix_of(h) == Ok::<HeaderPrefix, HeaderError>(
                HeaderPrefix {
                    header_size: m.header_size,
                    raw_content_type: m.content_type,
                    content_type: content_type_of(m.content_type),
                },
            )
            &&& forall|p: StfsMetadata| #[trigger] metadata_reads(h, p) ==> p == m
            &&& be_val(field(h, 0x3A9, 4)) == 0
            &&& forall|r: Option<AvatarItemMetadata>| #[trigger]
                avatar_item_reads(h, r) && avatar is Some && video is None ==> r == (if 1
                    <= avatar->0.skeleton_version <= 3 {
                    avatar
                } else {
                    None
                })
            &&& forall|r: Option<VideoMetadata>| #[trigger]
                video_reads(h, r) && video is Some ==> r == video
            &&& forall|r: Option<InstallerMetadata>| #[trigger]
                installer_reads(h, r) && installer is Some && versions_fit(installer->0) ==> r
                    == installer
            &&& thumbnail_of(h, 0x171A, be_val(field(h, 0x1712, 4)) as int, thumbnail_max(h))
                is None
            &&& thumbnail_of(h, 0x571A, be_val(field(h, 0x1716, 4)) as int, thumbnail_max(h))
                is None
        }),
{
    let h = header_image(len, m, display_name, avatar, video, installer);
    if let Some(n) = display_name {
        lemma_units_bytes_len(first_units(utf16_of(n)));
    }
    let region = field(metadata_image(m), 0x22C, 0x1E5);
    let base = overwrite(zeros(len), 0, be_bytes(MAGIC_CON as nat, 4));
    let fixed = overwrite(base, 0x22C, region);
    crate::bytes::lemma_pow256();
    broadcast use crate::bytes::lemma_be_round_trip;

    assert(field(h, 0, 4) == be_bytes(MAGIC_CON as nat, 4));
    assert forall|x: int, n: int|
        0x22C <= x && 0 <= n && (x + n <= 0x3D9 || (0x3FD <= x && x + n <= 0x411)) implies #[trigger] field(
        h,
        x,
        n,
    ) == field(fixed, x, n) by {
    }
    assert forall|x: int, n: int|
        0x22C <= x && 0 <= n && x + n <= 0x411 implies #[trigger] field(fixed, x, n) == field(
        metadata_image(m),
        x,
        n,
    ) by {
        assert(field(fixed, x, n) =~= field(metadata_image(m), x, n));
    }
    assert(be_val(field(h, 0x340, 4)) == m.header_size);
    assert(be_val(field(h, 0x344, 4)) == m.content_type);
    assert forall|p: StfsMetadata| #[trigger] metadata_reads(h, p) implies p == m by {
        assert(metadata_reads(fixed, p));
        metadata_round_trips(base, m, p);
    }
    let named = match display_name {
        Some(n) => overwrite(fixed, 0x411, units_bytes(first_units(utf16_of(n)))),
        None => fixed,
    };
    let with_a = match avatar {
        Some(a) => with_avatar_item(named, a),
        None => named,
    };
    let with_v = match video {
        Some(v) => with_video(with_a, v),
        None => with_a,
    };
    assert forall|x: int, n: int| 0 <= x && 0 <= n && x + n <= 0x971A implies #[trigger] field(
        h,
        x,
        n,
    ) == field(with_v, x, n) by {
    }
    assert forall|r: Option<AvatarItemMetadata>| #[trigger]
        avatar_item_reads(h, r) && avatar is Some && video is None implies r == (if 1
        <= avatar->0.skeleton_version <= 3 {
        avatar
    } else {
        None
    }) by {
        assert(field(h, 0x3F1, 1) == field(with_a, 0x3F1, 1));
        assert(field(h, 0x3F1, 1)[0] == h[0x3F1]);
        assert(field(with_a, 0x3F1, 1)[0] == with_a[0x3F1]);
        assert(avatar_item_reads(with_a, r));
        avatar_item_round_trips(named, avatar->0, r);
    }
    assert forall|r: Option<VideoMetadata>| #[trigger]
        video_reads(h, r) && video is Some implies r == video by {
        assert(video_reads(with_v, r));
        video_round_trips(with_a, video->0, r);
    }
    assert forall|r: Option<InstallerMetadata>| #[trigger]
        installer_reads(h, r) && installer is Some && versions_fit(installer->0) implies r
        == installer by {
        installer_round_trips(with_v, installer->0, r);
    }
    assert(field(h, 0x1712, 4) =~= zeros(4));
    assert(field(h, 0x1716, 4) =~= zeros(4));
    assert(field(h, 0x3A9, 4) == field(metadata_image(m), 0x3A9, 4));
    assert(field(metadata_image(m), 0x3A9, 4) =~= zeros(4));
    assert(be_val(zeros(4)) == 0) by {
        reveal_with_fuel(be_bytes, 5);
        assert(zeros(4) =~= be_bytes(0, 4));
    }
}

/// The license entries stand in the header as they were given.
pub proof fn lemma_plain_license(
    len: nat,
    m: StfsMetadata,
    display_name: Option<Seq<char>>,
    avatar: Option<AvatarItemMetadata>,
    video: Option<VideoMetadata>,
    installer: Option<InstallerMetadata>,
)
    requires
        len >= 0xA000,
    ensures
        field(header_image(len, m, display_name, avatar, video, installer), 0x23C, 0xF0)
            == m.license_entries_1_15@,
{
    let h = header_image(len, m, display_name, avatar, video, installer);
    if let Some(n) = display_name {
        lemma_units_bytes_len(first_units(utf16_of(n)));
    }
    let region = field(metadata_image(m), 0x22C, 0x1E5);
    let base = overwrite(zeros(len), 0, be_bytes(MAGIC_CON as nat, 4));
    let fixed = overwrite(base, 0x22C, region);
    assert(field(h, 0x23C, 0xF0) == field(fixed, 0x23C, 0xF0));
    assert(field(fixed, 0x23C, 0xF0) =~= field(metadata_image(m), 0x23C, 0xF0));
    assert(field(metadata_image(m), 0x23C, 0xF0) =~= m.license_entries_1_15@);
}

/// The versions in a trailer keep to their four-bit majors and minors.
pub open spec fn versions_fit(m: InstallerMetadata) -> bool {
    m matches InstallerMetadata::Version { base_version, version, .. } ==> {
        &&& base_version.major < 16
        &&& base_version.minor < 16
        &&& version.major < 16
        &&& version.minor < 16
    }
}

/// The fields of a header that was built stand at their offsets in it: the magic `CON `, then the
/// fixed region, numbers big-endian but for the two of the file table, which are little-endian.
pub proof fn header_fields_stand_in_place(
    len: nat,
    m: StfsMetadata,
    display_name: Option<Seq<char>>,
    avatar: Option<AvatarItemMetadata>,
    video: Option<VideoMetadata>,
    installer: Option<InstallerMetadata>,
)
    requires
        len >= 0xA000,
    ensures
        ({
            let h = header_image(len, m, display_name, avatar, video, installer);
            let v = m.volume_descriptor;
            &&& h.len() == len
            &&& h.subrange(0, 4) == seq![0x43u8, 0x4F, 0x4E, 0x20]
            &&& h.subrange(0x23C, 0x32C) == m.license_entries_1_15@
            &&& h.subrange(0x32C, 0x340) == m.header_hash@
            &&& h.subrange(0x340, 0x344) == be_bytes(m.header_size as nat, 4)
            &&& h.subrange(0x344, 0x348) == be_bytes(m.content_type as nat, 4)
            &&& h.subrange(0x348, 0x34C) == be_bytes(m.metadata_version as nat, 4)
            &&& h.subrange(0x354, 0x358) == be_bytes(m.media_id as nat, 4)
            &&& h.subrange(0x360, 0x364) == be_bytes(m.title_id as nat, 4)
            &&& h.subrange(0x364, 0x365) == be_bytes(m.platform as nat, 1)
            &&& h.subrange(0x365, 0x366) == be_bytes(m.executable_type as nat, 1)
            &&& h.subrange(0x366, 0x367) == be_bytes(m.disc_number as nat, 1)
            &&& h.subrange(0x367, 0x368) == be_bytes(m.disc_count as nat, 1)
            &&& h.subrange(0x368, 0x36C) == be_bytes(m.save_game_id as nat, 4)
            &&& h.subrange(0x36C, 0x371) == m.console_id@
            &&& h.subrange(0x371, 0x379) == m.profile_id@
            &&& h.subrange(0x379, 0x37A) == be_bytes(v.size as nat, 1)
            &&& h.subrange(0x37B, 0x37C) == be_bytes(v.block_separation as nat, 1)
            &&& h.subrange(0x37C, 0x37E) == le_bytes(v.file_table_block_count as nat, 2)
            &&& h.subrange(0x37E, 0x381) == le_bytes(v.file_table_block_num as nat, 3)
            &&& h.subrange(0x381, 0x395) == v.top_hash_table_hash@
            &&& h.subrange(0x395, 0x399) == be_bytes(v.allocated_block_count as nat, 4)
            &&& h.subrange(0x3A9, 0x3AD) == be_bytes(0, 4)
            &&& h.subrange(0x3AD, 0x3B5) == m.online_creator@
            &&& h.subrange(0x3FD, 0x411) == m.device_id@
        }),
{
    let h = header_image(len, m, display_name, avatar, video, installer);
    if let Some(n) = display_name {
        lemma_units_bytes_len(first_units(utf16_of(n)));
    }
    let region = field(metadata_image(m), 0x22C, 0x1E5);
    let base = overwrite(zeros(len), 0, be_bytes(MAGIC_CON as nat, 4));
    let fixed = overwrite(base, 0x22C, region);
    let image = metadata_image(m);
    assert(h.subrange(0, 4) =~= seq![0x43u8, 0x4F, 0x4E, 0x20]) by {
        reveal_with_fuel(be_bytes, 5);
        assert(field(h, 0, 4) == be_bytes(MAGIC_CON as nat, 4));
        assert(be_bytes(MAGIC_CON as nat, 4) =~= seq![0x43u8, 0x4F, 0x4E, 0x20]);
    }
    assert forall|x: int, n: int|
        0x22C <= x && 0 <= n && (x + n <= 0x3D9 || (0x3FD <= x && x + n <= 0x411)) implies #[trigger] field(
        h,
        x,
        n,
    ) == field(image, x, n) by {
        assert(field(h, x, n) == field(fixed, x, n));
        assert(field(fixed, x, n) =~= field(image, x, n));
    }
    lemma_image_fields(m);
    assert(field(h, 0x23C, 0xF0) == field(image, 0x23C, 0xF0));
    assert(field(h, 0x32C, 20) == field(image, 0x32C, 20));
    assert(field(h, 0x340, 4) == field(image, 0x340, 4));
    assert(field(h, 0x344, 4) == field(image, 0x344, 4));
    assert(field(h, 0x348, 4) == field(image, 0x348, 4));
    assert(field(h, 0x354, 4) == field(image, 0x354, 4));
    assert(field(h, 0x360, 4) == field(image, 0x360, 4));
    assert(field(h, 0x364, 1) == field(image, 0x364, 1));
    assert(field(h, 0x365, 1) == field(image, 0x365, 1));
    assert(field(h, 0x366, 1) == field(image, 0x366, 1));
    assert(field(h, 0x367, 1) == field(image, 0x367, 1));
    assert(field(h, 0x368, 4) == field(image, 0x368, 4));
    assert(field(h, 0x36C, 5) == field(image, 0x36C, 5));
    assert(field(h, 0x371, 8) == field(image, 0x371, 8));
    assert(field(h, 0x379, 1) == field(image, 0x379, 1));
    assert(field(h, 0x37B, 1) == field(image, 0x37B, 1));
    assert(field(h, 0x37C, 2) == field(image, 0x37C, 2));
    assert(field(h, 0x37E, 3) == field(image, 0x37E, 3));
    assert(field(h, 0x381, 20) == field(image, 0x381, 20));
    assert(field(h, 0x395, 4) == field(image, 0x395, 4));
    assert(field(h, 0x3A9, 4) == field(image, 0x3A9, 4));
    assert(field(h, 0x3AD, 8) == field(image, 0x3AD, 8));
    assert(field(h, 0x3FD, 20) == field(image, 0x3FD, 20));
}

proof fn lemma_image_fields(m: StfsMetadata)
    ensures
        ({
            let s = metadata_image(m);
            let v = m.volume_descriptor;
            &&& field(s, 0x23C, 0xF0) == m.license_entries_1_15@
            &&& field(s, 0x32C, 20) == m.header_hash@
            &&& field(s, 0x340, 4) == be_bytes(m.header_size as nat, 4)
            &&& field(s, 0x344, 4) == be_bytes(m.content_type as nat, 4)
            &&& field(s, 0x348, 4) == be_bytes(m.metadata_version as nat, 4)
            &&& field(s, 0x354, 4) == be_bytes(m.media_id as nat, 4)
            &&& field(s, 0x360, 4) == be_bytes(m.title_id as nat, 4)
            &&& field(s, 0x364, 1) == be_bytes(m.platform as nat, 1)
            &&& field(s, 0x365, 1) == be_bytes(m.executable_type as nat, 1)
            &&& field(s, 0x366, 1) == be_bytes(m.disc_number as nat, 1)
            &&& field(s, 0x367, 1) == be_bytes(m.disc_count as nat, 1)
            &&& field(s, 0x368, 4) == be_bytes(m.save_game_id as nat, 4)
            &&& field(s, 0x36C, 5) == m.console_id@
            &&& field(s, 0x371, 8) == m.profile_id@
            &&& field(s, 0x379, 1) == be_bytes(v.size as nat, 1)
            &&& field(s, 0x37B, 1) == be_bytes(v.block_separation as nat, 1)
            &&& field(s, 0x37C, 2) == le_bytes(v.file_table_block_count as nat, 2)
            &&& field(s, 0x37E, 3) == le_bytes(v.file_table_block_num as nat, 3)
            &&& field(s, 0x381, 20) == v.top_hash_table_hash@
            &&& field(s, 0x395, 4) == be_bytes(v.allocated_block_count as nat, 4)
            &&& field(s, 0x3A9, 4) == be_bytes(0, 4)
            &&& field(s, 0x3AD, 8) == m.online_creator@
            &&& field(s, 0x3FD, 20) == m.device_id@
        }),
{
    let s = metadata_image(m);
    assert(field(s, 0x3A9, 4) =~= zeros(4));
    assert(be_bytes(0, 4) =~= zeros(4)) by {
        reveal_with_fuel(be_bytes, 5);
    }
}

} // verus!
