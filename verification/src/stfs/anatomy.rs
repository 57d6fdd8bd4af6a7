//! What the header, the listing and the blocks of a written package hold, byte by byte.
use crate::bytes::{be_bytes, field, le_bytes, overwrite, zeros};
use crate::source::FileSource;
use crate::stfs::format::{
    metadata_image, AvatarItemMetadata, InstallerMetadata, ProgressCacheKind, StfsMetadata,
    VideoMetadata, MAGIC_CON,
};
use crate::stfs::hashes::{data_at, lemma_places};
use crate::stfs::header::{
    first_units, header_image, lemma_units_bytes_at, lemma_units_bytes_len, units_bytes,
};
use crate::stfs::layout::{entry_blocks, NodeModel};
use crate::stfs::plan::StfsLayout;
use crate::stfs::round_trip::{holds_blocks, is_ready, lemma_owner, lemma_written_at};
use crate::stfs::write::{
    data_block, entry_bytes, entry_name_bytes, name_len_byte, table_block, StfsWriteSession,
};
use crate::utils::text::utf16_of;
use vstd::prelude::*;
use vstd::utf8::encode_utf8;

verus! {

broadcast use crate::bytes::group_fields;

/// How many blocks a file of `size` bytes takes: as many as hold it, and one if it is empty.
pub open spec fn takes_blocks(size: int, n: int) -> bool {
    if size == 0 {
        n == 1
    } else {
        (n - 1) * 4096 < size <= n * 4096
    }
}

/// Entry `k` of the listing stands in 64 bytes of block `k / 64`: its name, at most 40 bytes of it;
/// a byte with the length of that, at least one, 64 more for a file and 128 more for a directory;
/// least significant byte first, how many blocks the file takes, twice, and its first block; most
/// significant byte first, the entry of its directory, its size, and when it was made, twice.
pub proof fn listing_entries_stand_in_place<F: FileSource>(
    s: StfsWriteSession<F>,
    img: Seq<u8>,
    k: int,
)
    requires
        is_ready(s),
        holds_blocks(s, img),
        0 <= k < s.layout.entries@.len(),
    ensures
        ({
            let e = s.layout.entries@[k];
            let at = data_at(s.layout.first_hash_table_address as int, k / 64) + k % 64 * 64;
            let utf8 = encode_utf8(e.name@);
            let name = if utf8.len() <= 40 {
                utf8
            } else {
                utf8.take(40)
            };
            let claimed = if e.is_directory {
                0
            } else {
                entry_blocks(e.file_size as int)
            };
            let made = s.created_timestamp as nat;
            &&& 0 <= at
            &&& at + 0x40 <= img.len()
            &&& img.subrange(at, at + name.len()) == name
            &&& forall|i: int| name.len() <= i < 0x28 ==> #[trigger] img[at + i] == 0
            &&& img[at + 0x28] == (if name.len() == 0 {
                1
            } else {
                name.len()
            }) + (if e.is_contiguous {
                64
            } else {
                0int
            }) + (if e.is_directory {
                128
            } else {
                0int
            })
            &&& img.subrange(at + 0x29, at + 0x2C) == le_bytes(claimed as nat, 3)
            &&& img.subrange(at + 0x2C, at + 0x2F) == le_bytes(claimed as nat, 3)
            &&& img.subrange(at + 0x2F, at + 0x32) == le_bytes(e.starting_block_num as nat, 3)
            &&& img.subrange(at + 0x32, at + 0x34) == be_bytes(e.parent_index as nat, 2)
            &&& img.subrange(at + 0x34, at + 0x38) == be_bytes(e.file_size as nat, 4)
            &&& img.subrange(at + 0x38, at + 0x3C) == be_bytes(made, 4)
            &&& img.subrange(at + 0x3C, at + 0x40) == be_bytes(made, 4)
            &&& !e.is_directory ==> takes_blocks(e.file_size as int, claimed)
        }),
{
    let l = s.layout;
    let e = l.entries@[k];
    let t = k / 64;
    let first = l.first_hash_table_address as int;
    let at = data_at(first, t) + k % 64 * 64;
    assert(t < l.file_table_block_count);
    lemma_places(first, t);
    lemma_written_at(s, img, t);
    let b = img.subrange(data_at(first, t), data_at(first, t) + 0x1000);
    assert(b == table_block(l, t, s.created_timestamp));
    let slot = entry_bytes(e, s.created_timestamp);
    let name = entry_name_bytes(e.name@);
    assert(slot.len() == 0x40);
    assert forall|x: int| 0 <= x < 0x40 implies #[trigger] img[at + x] == slot[x] by {
        let i = k % 64 * 64 + x;
        assert(i / 0x40 == k % 64);
        assert(i % 0x40 == x);
        assert(b[i] == img[at + x]);
        assert(t * 0x40 + i / 0x40 == k);
    }
    let piece = img.subrange(at, at + 0x40);
    assert forall|x: int| 0 <= x < 0x40 implies #[trigger] piece[x] == slot[x] by {
        assert(piece[x] == img[at + x]);
    }
    assert(piece =~= slot);
    lemma_entry_fields(e, s.created_timestamp);
    assert(img.subrange(at, at + name.len()) =~= slot.take(name.len() as int));
    assert(img.subrange(at + 0x29, at + 0x2C) =~= field(slot, 0x29, 3));
    assert(img.subrange(at + 0x2C, at + 0x2F) =~= field(slot, 0x2C, 3));
    assert(img.subrange(at + 0x2F, at + 0x32) =~= field(slot, 0x2F, 3));
    assert(img.subrange(at + 0x32, at + 0x34) =~= field(slot, 0x32, 2));
    assert(img.subrange(at + 0x34, at + 0x38) =~= field(slot, 0x34, 4));
    assert(img.subrange(at + 0x38, at + 0x3C) =~= field(slot, 0x38, 4));
    assert(img.subrange(at + 0x3C, at + 0x40) =~= field(slot, 0x3C, 4));
}

proof fn lemma_entry_fields(e: crate::stfs::plan::PlannedEntry, timestamp: u32)
    ensures
        ({
            let b = entry_bytes(e, timestamp);
            let name = entry_name_bytes(e.name@);
            let claimed = crate::stfs::write::claimed_blocks(e);
            &&& b.len() == 0x40
            &&& b.take(name.len() as int) == name
            &&& forall|i: int| name.len() <= i < 0x28 ==> #[trigger] b[i] == 0
            &&& b[0x28] == name_len_byte(e) % 256
            &&& field(b, 0x29, 3) == le_bytes(claimed as nat, 3)
            &&& field(b, 0x2C, 3) == le_bytes(claimed as nat, 3)
            &&& field(b, 0x2F, 3) == le_bytes(e.starting_block_num as nat, 3)
            &&& field(b, 0x32, 2) == be_bytes(e.parent_index as nat, 2)
            &&& field(b, 0x34, 4) == be_bytes(e.file_size as nat, 4)
            &&& field(b, 0x38, 4) == be_bytes(timestamp as nat, 4)
            &&& field(b, 0x3C, 4) == be_bytes(timestamp as nat, 4)
        }),
{
    let b = entry_bytes(e, timestamp);
    let name = entry_name_bytes(e.name@);
    assert(b.take(name.len() as int) =~= name);
    reveal_with_fuel(be_bytes, 2);
    assert(field(b, 0x28, 1) == be_bytes(name_len_byte(e) as nat, 1));
    assert(b[0x28] == field(b, 0x28, 1)[0]);
}

/// A file's bytes stand one after another in its blocks, 4096 to a block, and what is left of the
/// last block is zero.
pub proof fn files_stand_in_their_blocks<F: FileSource>(
    s: StfsWriteSession<F>,
    img: Seq<u8>,
    i: int,
    p: int,
)
    requires
        is_ready(s),
        holds_blocks(s, img),
        0 <= i < s.layout.entries@.len(),
        !s.layout.entries@[i].is_directory,
        0 <= p,
        p / 4096 < entry_blocks(s.layout.entries@[i].file_size as int),
    ensures
        ({
            let e = s.layout.entries@[i];
            let at = data_at(
                s.layout.first_hash_table_address as int,
                e.starting_block_num + p / 4096,
            ) + p % 4096;
            &&& 0 <= at < img.len()
            &&& takes_blocks(e.file_size as int, entry_blocks(e.file_size as int))
            &&& e.source_file_index is Some
            &&& s.files.contents()[e.source_file_index->0 as int].len() == e.file_size
            &&& img[at] == (if p < e.file_size {
                s.files.contents()[e.source_file_index->0 as int][p]
            } else {
                0
            })
        }),
{
    let l = s.layout;
    let e = l.entries@[i];
    let b = e.starting_block_num + p / 4096;
    let first = l.first_hash_table_address as int;
    assert(e.owns(b));
    lemma_owner(l, i, b);
    lemma_places(first, b);
    lemma_written_at(s, img, b);
    let block = img.subrange(data_at(first, b), data_at(first, b) + 0x1000);
    assert(block[p % 4096] == img[data_at(first, b) + p % 4096]);
    assert(block == data_block(l, s.files.contents(), b));
    assert((b - e.starting_block_num) * 0x1000 + p % 4096 == p);
}

/// The chain of the listing and of each file runs from block to block up to its last, which points
/// nowhere.
pub proof fn chains_end_with_their_file(l: StfsLayout, i: int, b: int)
    requires
        l.wf(),
        0 <= i < l.entries@.len(),
        0 <= b < l.total_blocks,
    ensures
        b + 1 < l.file_table_block_count ==> l.chain_next(b) == b + 1,
        b + 1 == l.file_table_block_count ==> l.chain_next(b) == 0xFF_FFFF,
        ({
            let e = l.entries@[i];
            let end = e.starting_block_num + entry_blocks(e.file_size as int);
            !e.is_directory && e.starting_block_num <= b < end ==> {
                &&& b + 1 < end ==> l.chain_next(b) == b + 1
                &&& b + 1 == end ==> l.chain_next(b) == 0xFF_FFFF
            }
        }),
{
    let e = l.entries@[i];
    if e.owns(b) {
        lemma_owner(l, i, b);
    }
}

/// A plan begins with the blocks of its listing, 64 entries to each. The files stand behind them,
/// back to back in the order of the listing, up to the last block.
pub proof fn files_stand_behind_the_listing(
    l: StfsLayout,
    nodes: Seq<NodeModel>,
    sep: u8,
    has_installer: bool,
    k: int,
)
    requires
        l.is_plan_of(nodes, sep, has_installer),
        0 <= k < nodes.len(),
        forall|i: int| 0 <= i < nodes.len() ==> (#[trigger] nodes[i]).file_size >= 0,
    ensures
        ({
            let count = l.file_table_block_count;
            let e = l.entries@[k];
            &&& (count - 1) * 64 < nodes.len() <= count * 64
            &&& l.file_table_block_num == 0
            &&& e.name@ == nodes[k].name
            &&& e.is_directory == nodes[k].is_directory
            &&& e.is_contiguous == !nodes[k].is_directory
            &&& e.file_size == nodes[k].file_size
            &&& e.parent_index == (if nodes[k].parent is Some {
                nodes[k].parent->0
            } else {
                0xFFFF
            })
            &&& e.is_directory ==> e.starting_block_num == 0
            &&& !e.is_directory && (forall|i: int|
                0 <= i < k ==> (#[trigger] nodes[i]).is_directory) ==> e.starting_block_num == count
            &&& !e.is_directory && (forall|i: int|
                k < i < nodes.len() ==> (#[trigger] nodes[i]).is_directory)
                ==> e.starting_block_num + entry_blocks(e.file_size as int) == l.total_blocks
            &&& forall|j: int|
                #![trigger l.entries@[j]]
                k < j < nodes.len() && !e.is_directory && !nodes[j].is_directory && (forall|i: int|
                    k < i < j ==> (#[trigger] nodes[i]).is_directory)
                    ==> l.entries@[j].starting_block_num == e.starting_block_num + entry_blocks(
                    e.file_size as int,
                )
        }),
{
    let n = nodes.len() as int;
    assert(crate::stfs::plan::is_entry_of(
        l.entries@[k],
        nodes,
        crate::stfs::plan::table_blocks(n),
        k,
    ));
    if forall|i: int| 0 <= i < k ==> (#[trigger] nodes[i]).is_directory {
        lemma_only_directories(nodes, 0, k);
    }
    if forall|i: int| k < i < n ==> (#[trigger] nodes[i]).is_directory {
        lemma_only_directories(nodes, k + 1, n);
    }
    assert forall|j: int|
        #![trigger l.entries@[j]]
        k < j < n && !l.entries@[k].is_directory && !nodes[j].is_directory && (forall|i: int|
            k < i < j ==> (#[trigger] nodes[i]).is_directory) implies l.entries@[j].starting_block_num
        == l.entries@[k].starting_block_num + entry_blocks(l.entries@[k].file_size as int) by {
        lemma_only_directories(nodes, k + 1, j);
        assert(crate::stfs::plan::is_entry_of(
            l.entries@[j],
            nodes,
            crate::stfs::plan::table_blocks(n),
            j,
        ));
    }
}

proof fn lemma_only_directories(nodes: Seq<NodeModel>, from: int, to: int)
    requires
        0 <= from <= to <= nodes.len(),
        forall|i: int| from <= i < to ==> (#[trigger] nodes[i]).is_directory,
    ensures
        crate::stfs::plan::blocks_before(nodes, to) == crate::stfs::plan::blocks_before(
            nodes,
            from,
        ),
    decreases to,
{
    if from < to {
        assert(nodes[to - 1].is_directory);
        lemma_only_directories(nodes, from, to - 1);
    }
}

/// The name of a package stands from 0x411 on, two bytes to each UTF-16 unit, most significant
/// first, at most 128 of them; what is left of the 256 bytes is zero.
pub proof fn name_stands_in_place(
    len: nat,
    m: StfsMetadata,
    display_name: Option<Seq<char>>,
    avatar: Option<AvatarItemMetadata>,
    video: Option<VideoMetadata>,
    installer: Option<InstallerMetadata>,
    j: int,
)
    requires
        len >= 0xA000,
        0 <= j < 0x80,
    ensures
        ({
            let h = header_image(len, m, display_name, avatar, video, installer);
            let at = 0x411 + 2 * j;
            h[at] * 256 + h[at + 1] == (if display_name is Some && j < utf16_of(
                display_name->0,
            ).len() {
                utf16_of(display_name->0)[j] as int
            } else {
                0
            })
        }),
{
    let h = header_image(len, m, display_name, avatar, video, installer);
    let s0 = overwrite(
        overwrite(zeros(len), 0, be_bytes(MAGIC_CON as nat, 4)),
        0x22C,
        field(metadata_image(m), 0x22C, 0x1E5),
    );
    let at = 0x411 + 2 * j;
    let u = if display_name is Some {
        first_units(utf16_of(display_name->0))
    } else {
        Seq::empty()
    };
    lemma_units_bytes_len(u);
    let s1 = overwrite(s0, 0x411, units_bytes(u));
    assert(field(h, at, 2) == field(s1, at, 2));
    assert(h[at] == field(h, at, 2)[0] && h[at + 1] == field(h, at, 2)[1]);
    reveal_with_fuel(be_bytes, 3);
    if j < u.len() {
        lemma_units_bytes_at(u, j);
        assert(field(s1, at, 2) =~= field(units_bytes(u), 2 * j, 2));
    } else {
        assert(field(s1, at, 2) =~= zeros(2));
    }
}

/// What an avatar item says of itself stands at 0x3D9, least significant byte first.
pub proof fn avatar_item_stands_in_place(
    len: nat,
    m: StfsMetadata,
    display_name: Option<Seq<char>>,
    avatar: AvatarItemMetadata,
    installer: Option<InstallerMetadata>,
)
    requires
        len >= 0xA000,
    ensures
        ({
            let h = header_image(len, m, display_name, Some(avatar), None, installer);
            &&& h.subrange(0x3D9, 0x3DD) == le_bytes(avatar.sub_category as nat, 4)
            &&& h.subrange(0x3DD, 0x3E1) == le_bytes(avatar.colorizable as nat, 4)
            &&& h.subrange(0x3E1, 0x3F1) == avatar.guid@
            &&& h[0x3F1] == avatar.skeleton_version
        }),
{
    let h = header_image(len, m, display_name, Some(avatar), None, installer);
    if let Some(n) = display_name {
        lemma_units_bytes_len(first_units(utf16_of(n)));
    }
    assert(h.subrange(0x3D9, 0x3DD) =~= field(h, 0x3D9, 4));
    assert(h.subrange(0x3DD, 0x3E1) =~= field(h, 0x3DD, 4));
    assert(h.subrange(0x3E1, 0x3F1) =~= field(h, 0x3E1, 16));
    reveal_with_fuel(le_bytes, 2);
    assert(field(h, 0x3F1, 1) == le_bytes(avatar.skeleton_version as nat, 1));
    assert(h[0x3F1] == field(h, 0x3F1, 1)[0]);
}

/// What a video says of itself stands at 0x3D9, most significant byte first.
pub proof fn video_stands_in_place(
    len: nat,
    m: StfsMetadata,
    display_name: Option<Seq<char>>,
    video: VideoMetadata,
    installer: Option<InstallerMetadata>,
)
    requires
        len >= 0xA000,
    ensures
        ({
            let h = header_image(len, m, display_name, None, Some(video), installer);
            &&& h.subrange(0x3D9, 0x3E9) == video.series_id@
            &&& h.subrange(0x3E9, 0x3F9) == video.season_id@
            &&& h.subrange(0x3F9, 0x3FB) == be_bytes(video.season_number as nat, 2)
            &&& h.subrange(0x3FB, 0x3FD) == be_bytes(video.episode_number as nat, 2)
        }),
{
    let h = header_image(len, m, display_name, None, Some(video), installer);
    if let Some(n) = display_name {
        lemma_units_bytes_len(first_units(utf16_of(n)));
    }
    assert(h.subrange(0x3D9, 0x3E9) =~= field(h, 0x3D9, 16));
    assert(h.subrange(0x3E9, 0x3F9) =~= field(h, 0x3E9, 16));
    assert(h.subrange(0x3F9, 0x3FB) =~= field(h, 0x3F9, 2));
    assert(h.subrange(0x3FB, 0x3FD) =~= field(h, 0x3FB, 2));
}

/// The trailer of an installer stands at 0x971A: four letters for its kind, and then its numbers,
/// most significant byte first, a version in four bytes.
#[verifier::rlimit(40)]
pub proof fn installer_stands_in_place(
    len: nat,
    m: StfsMetadata,
    display_name: Option<Seq<char>>,
    avatar: Option<AvatarItemMetadata>,
    video: Option<VideoMetadata>,
    installer: InstallerMetadata,
)
    requires
        len >= 0xB000,
    ensures
        ({
            let h = header_image(len, m, display_name, avatar, video, Some(installer));
            let kind = h.subrange(0x971A, 0x971E);
            match installer {
                InstallerMetadata::Empty => kind == seq![0u8, 0, 0, 0],
                InstallerMetadata::Version { is_title_update, base_version, version } => {
                    &&& kind == (if is_title_update {
                        seq![0x54u8, 0x55, 0x50, 0x44]
                    } else {
                        seq![0x53u8, 0x55, 0x50, 0x44]
                    })
                    &&& h[0x971E] == base_version.major % 16 * 16 + base_version.minor % 16
                    &&& h.subrange(0x971F, 0x9721) == be_bytes(base_version.build as nat, 2)
                    &&& h[0x9721] == base_version.revision
                    &&& h[0x9722] == version.major % 16 * 16 + version.minor % 16
                    &&& h.subrange(0x9723, 0x9725) == be_bytes(version.build as nat, 2)
                    &&& h[0x9725] == version.revision
                },
                InstallerMetadata::ProgressCache {
                    kind: k,
                    resume_state,
                    current_file_index,
                    current_file_offset,
                    bytes_processed,
                    last_modified_high,
                    last_modified_low,
                    cab_resume_data,
                } => {
                    &&& kind == (match k {
                        ProgressCacheKind::SystemUpdate => seq![0x50u8, 0x24, 0x53, 0x55],
                        ProgressCacheKind::TitleUpdate => seq![0x50u8, 0x24, 0x54, 0x55],
                        ProgressCacheKind::TitleContent => seq![0x50u8, 0x24, 0x54, 0x43],
                    })
                    &&& h.subrange(0x971E, 0x9722) == be_bytes(resume_state as nat, 4)
                    &&& h.subrange(0x9722, 0x9726) == be_bytes(current_file_index as nat, 4)
                    &&& h.subrange(0x9726, 0x972E) == be_bytes(current_file_offset as nat, 8)
                    &&& h.subrange(0x972E, 0x9736) == be_bytes(bytes_processed as nat, 8)
                    &&& h.subrange(0x9736, 0x973A) == be_bytes(last_modified_high as nat, 4)
                    &&& h.subrange(0x973A, 0x973E) == be_bytes(last_modified_low as nat, 4)
                    &&& h.subrange(0x973E, 0xAD0E) == cab_resume_data@
                },
            }
        }),
{
    let h = header_image(len, m, display_name, avatar, video, Some(installer));
    if let Some(n) = display_name {
        lemma_units_bytes_len(first_units(utf16_of(n)));
    }
    assert(h.len() == len);
    lemma_kinds();
    assert(h.subrange(0x971A, 0x971E) =~= field(h, 0x971A, 4));
    assert(field(h, 0x971A, 4) == be_bytes(installer.installer_type() as nat, 4));
    match installer {
        InstallerMetadata::Empty => {},
        InstallerMetadata::Version { base_version, version, .. } => {
            let a = field(h, 0x971E, 4);
            let b = field(h, 0x9722, 4);
            lemma_version_bytes(base_version);
            lemma_version_bytes(version);
            assert(h[0x971E] == a[0] && h[0x9721] == a[3]);
            assert(h[0x9722] == b[0] && h[0x9725] == b[3]);
            assert(h.subrange(0x971F, 0x9721) =~= a.subrange(1, 3));
            assert(h.subrange(0x9723, 0x9725) =~= b.subrange(1, 3));
        },
        InstallerMetadata::ProgressCache { cab_resume_data, .. } => {
            assert(h.subrange(0x971E, 0x9722) =~= field(h, 0x971E, 4));
            assert(h.subrange(0x9722, 0x9726) =~= field(h, 0x9722, 4));
            assert(h.subrange(0x9726, 0x972E) =~= field(h, 0x9726, 8));
            assert(h.subrange(0x972E, 0x9736) =~= field(h, 0x972E, 8));
            assert(h.subrange(0x9736, 0x973A) =~= field(h, 0x9736, 4));
            assert(h.subrange(0x973A, 0x973E) =~= field(h, 0x973A, 4));
            assert(h.subrange(0x973E, 0xAD0E) =~= field(h, 0x973E, 0x15D0));
        },
    }
}

proof fn lemma_kinds()
    ensures
        be_bytes(0, 4) == seq![0u8, 0, 0, 0],
        be_bytes(0x5355_5044, 4) == seq![0x53u8, 0x55, 0x50, 0x44],
        be_bytes(0x5455_5044, 4) == seq![0x54u8, 0x55, 0x50, 0x44],
        be_bytes(0x5024_5355, 4) == seq![0x50u8, 0x24, 0x53, 0x55],
        be_bytes(0x5024_5455, 4) == seq![0x50u8, 0x24, 0x54, 0x55],
        be_bytes(0x5024_5443, 4) == seq![0x50u8, 0x24, 0x54, 0x43],
{
    reveal_with_fuel(be_bytes, 5);
    assert(be_bytes(0, 4) =~= seq![0u8, 0, 0, 0]);
    assert(be_bytes(0x5355_5044, 4) =~= seq![0x53u8, 0x55, 0x50, 0x44]);
    assert(be_bytes(0x5455_5044, 4) =~= seq![0x54u8, 0x55, 0x50, 0x44]);
    assert(be_bytes(0x5024_5355, 4) =~= seq![0x50u8, 0x24, 0x53, 0x55]);
    assert(be_bytes(0x5024_5455, 4) =~= seq![0x50u8, 0x24, 0x54, 0x55]);
    assert(be_bytes(0x5024_5443, 4) =~= seq![0x50u8, 0x24, 0x54, 0x43]);
}

proof fn lemma_version_bytes(v: crate::stfs::format::InstallerVersion)
    ensures
        ({
            let b = be_bytes(crate::stfs::format::packed_version(v) as nat, 4);
            &&& b.len() == 4
            &&& b[0] == v.major % 16 * 16 + v.minor % 16
            &&& b.subrange(1, 3) == be_bytes(v.build as nat, 2)
            &&& b[3] == v.revision
        }),
{
    let p = crate::stfs::format::packed_version(v) as nat;
    let high = (v.major % 16) * 16 + v.minor % 16;
    let b = be_bytes(p, 4);
    lemma_four_bytes(p);
    lemma_two_bytes(v.build as nat);
    assert(p == high * 0x100_0000 + v.build * 0x100 + v.revision);
    assert(high < 256);
    assert(p / 0x100 == high * 0x1_0000 + v.build);
    assert(p / 0x1_0000 == high * 0x100 + v.build / 0x100);
    assert(p / 0x100_0000 == high);
    assert(b.subrange(1, 3) =~= be_bytes(v.build as nat, 2));
}

proof fn lemma_four_bytes(p: nat)
    requires
        p <= u32::MAX,
    ensures
        be_bytes(p, 4) == seq![
            (p / 0x100_0000) as u8,
            (p / 0x1_0000 % 0x100) as u8,
            (p / 0x100 % 0x100) as u8,
            (p % 0x100) as u8,
        ],
{
    reveal_with_fuel(be_bytes, 5);
    let b = be_bytes(p, 4);
    assert(p / 256 / 256 == p / 0x1_0000);
    assert(p / 256 / 256 / 256 == p / 0x100_0000);
    assert(b =~= seq![
        (p / 0x100_0000) as u8,
        (p / 0x1_0000 % 0x100) as u8,
        (p / 0x100 % 0x100) as u8,
        (p % 0x100) as u8,
    ]);
}

proof fn lemma_two_bytes(p: nat)
    requires
        p <= u16::MAX,
    ensures
        be_bytes(p, 2) == seq![(p / 0x100) as u8, (p % 0x100) as u8],
{
    reveal_with_fuel(be_bytes, 3);
    assert(be_bytes(p, 2) =~= seq![(p / 0x100) as u8, (p % 0x100) as u8]);
}

} // verus!
