//! What is read from the header and the listing of a package, byte by byte.
use crate::bytes::{be_val, field, le_val, rounding_goes_up_to_the_next_multiple};
use crate::stfs::format::{
    header_prefix_of, units_at, version_of, ContentType, InstallerMetadata, Level,
    ProgressCacheKind, StfsMetadata,
};
use crate::stfs::listing::{
    ancestors, block_entries, entry_path, last_with_index, listed_files, EntryModel, StfsReadError,
};
use crate::source::ByteSource;
use crate::stfs::read::{geometry_of, header_of, Geometry, StfsReader};
use crate::utils::paths::joined;
use crate::utils::safe_path::safe_component;
use crate::utils::text::{utf16_lossy, utf8_text};
use vstd::prelude::*;

verus! {

broadcast use crate::bytes::group_fields;

/// The number in two bytes, most significant first.
pub open spec fn two(b: Seq<u8>, at: int) -> int {
    b[at] * 0x100 + b[at + 1]
}

/// The number in four bytes, most significant first.
pub open spec fn four(b: Seq<u8>, at: int) -> int {
    b[at] * 0x100_0000 + b[at + 1] * 0x1_0000 + b[at + 2] * 0x100 + b[at + 3]
}

/// The number in four bytes, least significant first.
pub open spec fn four_back(b: Seq<u8>, at: int) -> int {
    b[at] + b[at + 1] * 0x100 + b[at + 2] * 0x1_0000 + b[at + 3] * 0x100_0000
}

/// The number in three bytes, least significant first.
pub open spec fn three_back(b: Seq<u8>, at: int) -> int {
    b[at] + b[at + 1] * 0x100 + b[at + 2] * 0x1_0000
}

proof fn lemma_one(b: Seq<u8>, at: int)
    requires
        0 <= at < b.len(),
    ensures
        be_val(field(b, at, 1)) == b[at],
        le_val(field(b, at, 1)) == b[at],
{
    let f = field(b, at, 1);
    reveal_with_fuel(be_val, 2);
    reveal_with_fuel(le_val, 2);
    assert(f.drop_last().len() == 0);
    assert(f.drop_first().len() == 0);
}

proof fn lemma_two(b: Seq<u8>, at: int)
    requires
        0 <= at,
        at + 2 <= b.len(),
    ensures
        be_val(field(b, at, 2)) == two(b, at),
        le_val(field(b, at, 2)) == b[at] + b[at + 1] * 0x100,
{
    let f = field(b, at, 2);
    reveal_with_fuel(be_val, 3);
    reveal_with_fuel(le_val, 3);
    assert(f.drop_last().drop_last().len() == 0);
    assert(f.drop_first().drop_first().len() == 0);
    assert(f.drop_first()[0] == f[1]);
    assert(f.drop_last().last() == f[0]);
}

proof fn lemma_three(b: Seq<u8>, at: int)
    requires
        0 <= at,
        at + 3 <= b.len(),
    ensures
        le_val(field(b, at, 3)) == three_back(b, at),
{
    let f = field(b, at, 3);
    reveal_with_fuel(le_val, 4);
    assert(f.drop_first().drop_first().drop_first().len() == 0);
    assert(f.drop_first()[0] == f[1]);
    assert(f.drop_first().drop_first()[0] == f[2]);
}

/// What four bytes are read as.
pub proof fn lemma_four(b: Seq<u8>, at: int)
    requires
        0 <= at,
        at + 4 <= b.len(),
    ensures
        be_val(field(b, at, 4)) == four(b, at),
        le_val(field(b, at, 4)) == four_back(b, at),
{
    let f = field(b, at, 4);
    reveal_with_fuel(be_val, 5);
    reveal_with_fuel(le_val, 5);
    assert(f.drop_first().drop_first().drop_first().drop_first().len() == 0);
    assert(f.drop_first()[0] == f[1]);
    assert(f.drop_first().drop_first()[0] == f[2]);
    assert(f.drop_first().drop_first().drop_first()[0] == f[3]);
    assert(f.drop_last().drop_last().drop_last().drop_last().len() == 0);
    assert(f.drop_last().last() == f[2]);
    assert(f.drop_last().drop_last().last() == f[1]);
    assert(f.drop_last().drop_last().drop_last().last() == f[0]);
}

proof fn lemma_eight(b: Seq<u8>, at: int)
    requires
        0 <= at,
        at + 8 <= b.len(),
    ensures
        be_val(field(b, at, 8)) == four(b, at) * 0x1_0000_0000 + four(b, at + 4),
{
    let f = field(b, at, 8);
    reveal_with_fuel(be_val, 5);
    let g = f.drop_last().drop_last().drop_last().drop_last();
    assert(f.last() == f[7]);
    assert(f.drop_last().last() == f[6]);
    assert(f.drop_last().drop_last().last() == f[5]);
    assert(f.drop_last().drop_last().drop_last().last() == f[4]);
    assert(g =~= field(b, at, 4));
    lemma_four(b, at);
}

/// The fixed fields of an opened package are those that stand at their places in it: numbers most
/// significant byte first, but for the two of the file table.
#[verifier::rlimit(40)]
pub proof fn header_is_read_in_place<S: ByteSource>(r: StfsReader<S>)
    requires
        r.header_matches(),
        r.source.bytes().len() >= 0x411,
    ensures
        ({
            let b = r.source.bytes();
            let m = r.metadata;
            let v = m.volume_descriptor;
            &&& m.license_entries_1_15@ == b.subrange(0x23C, 0x32C)
            &&& m.header_hash@ == b.subrange(0x32C, 0x340)
            &&& m.header_size == four(b, 0x340)
            &&& m.content_type == four(b, 0x344)
            &&& r.raw_content_type == four(b, 0x344)
            &&& m.metadata_version == four(b, 0x348)
            &&& m.media_id == four(b, 0x354)
            &&& m.title_id == four(b, 0x360)
            &&& m.platform == b[0x364]
            &&& m.executable_type == b[0x365]
            &&& m.disc_number == b[0x366]
            &&& m.disc_count == b[0x367]
            &&& m.save_game_id == four(b, 0x368)
            &&& m.console_id@ == b.subrange(0x36C, 0x371)
            &&& m.profile_id@ == b.subrange(0x371, 0x379)
            &&& v.size == b[0x379]
            &&& v.block_separation == b[0x37B]
            &&& v.file_table_block_count == b[0x37C] + b[0x37D] * 0x100
            &&& v.file_table_block_num == three_back(b, 0x37E)
            &&& v.top_hash_table_hash@ == b.subrange(0x381, 0x395)
            &&& v.allocated_block_count == four(b, 0x395)
            &&& m.online_creator@ == b.subrange(0x3AD, 0x3B5)
            &&& m.device_id@ == b.subrange(0x3FD, 0x411)
        }),
{
    let b = r.source.bytes();
    let h = header_of(b);
    let m = r.metadata;
    lemma_four(h, 0x340);
    lemma_four(h, 0x344);
    lemma_four(h, 0x348);
    lemma_four(h, 0x354);
    lemma_four(h, 0x360);
    lemma_four(h, 0x368);
    lemma_four(h, 0x395);
    lemma_one(h, 0x364);
    lemma_one(h, 0x365);
    lemma_one(h, 0x366);
    lemma_one(h, 0x367);
    lemma_one(h, 0x379);
    lemma_one(h, 0x37B);
    lemma_two(h, 0x37C);
    lemma_three(h, 0x37E);
    assert(field(h, 0x23C, 0xF0) =~= b.subrange(0x23C, 0x32C));
    assert(field(h, 0x32C, 20) =~= b.subrange(0x32C, 0x340));
    assert(field(h, 0x36C, 5) =~= b.subrange(0x36C, 0x371));
    assert(field(h, 0x371, 8) =~= b.subrange(0x371, 0x379));
    assert(field(h, 0x381, 20) =~= b.subrange(0x381, 0x395));
    assert(field(h, 0x3AD, 8) =~= b.subrange(0x3AD, 0x3B5));
    assert(field(h, 0x3FD, 20) =~= b.subrange(0x3FD, 0x411));
}

/// A package begins with one of three words, and its content type is known by five numbers.
pub proof fn content_type_is_read_by_its_number<S: ByteSource>(r: StfsReader<S>)
    requires
        r.header_matches(),
        r.source.bytes().len() >= 0x411,
    ensures
        ({
            let b = r.source.bytes();
            let word = b.take(4);
            let n = four(b, 0x344);
            &&& word == seq![0x43u8, 0x4F, 0x4E, 0x20] || word == seq![0x4Cu8, 0x49, 0x56, 0x45]
                || word == seq![0x50u8, 0x49, 0x52, 0x53]
            &&& r.content_type == Some(ContentType::InstalledGame) <==> n == 0x4000
            &&& r.content_type == Some(ContentType::XboxOriginal) <==> n == 0x5000
            &&& r.content_type == Some(ContentType::GamesOnDemand) <==> n == 0x7000
            &&& r.content_type == Some(ContentType::AvatarItem) <==> n == 0x9000
            &&& r.content_type == Some(ContentType::Video) <==> n == 0x9_0000
            &&& r.content_type is None <==> n != 0x4000 && n != 0x5000 && n != 0x7000 && n
                != 0x9000 && n != 0x9_0000
        }),
{
    let b = r.source.bytes();
    let h = header_of(b);
    lemma_four(h, 0x344);
    lemma_four(h, 0);
    let word = b.take(4);
    if four(h, 0) == 0x434F_4E20 {
        assert(word =~= seq![0x43u8, 0x4F, 0x4E, 0x20]);
    } else if four(h, 0) == 0x4C49_5645 {
        assert(word =~= seq![0x4Cu8, 0x49, 0x56, 0x45]);
    } else {
        assert(word =~= seq![0x50u8, 0x49, 0x52, 0x53]);
    }
}

/// Each word that begins a package is taken, and no other.
pub proof fn packages_are_known_by_their_word(h: Seq<u8>)
    requires
        h.len() >= 0x348,
    ensures
        header_prefix_of(h) is Ok <==> h.take(4) == seq![0x43u8, 0x4F, 0x4E, 0x20] || h.take(4)
            == seq![0x4Cu8, 0x49, 0x56, 0x45] || h.take(4) == seq![0x50u8, 0x49, 0x52, 0x53],
        header_prefix_of(h) matches Ok(p) ==> p.header_size == four(h, 0x340)
            && p.raw_content_type == four(h, 0x344),
{
    lemma_four(h, 0);
    lemma_four(h, 0x340);
    lemma_four(h, 0x344);
    let word = h.take(4);
    assert(word[0] == h[0] && word[1] == h[1] && word[2] == h[2] && word[3] == h[3]);
    if header_prefix_of(h) is Ok {
        assert(word =~= seq![0x43u8, 0x4F, 0x4E, 0x20] || word =~= seq![0x4Cu8, 0x49, 0x56, 0x45]
            || word =~= seq![0x50u8, 0x49, 0x52, 0x53]);
    }
}

/// The images of an opened package are those behind their lengths: at least eight bytes, at most
/// 0x4000, or 0x3D00 in the second version, that begin as a PNG does.
pub proof fn images_are_read_in_place<S: ByteSource>(r: StfsReader<S>)
    requires
        r.header_matches(),
        r.source.bytes().len() >= 0xAD0E,
    ensures
        ({
            let b = r.source.bytes();
            let n = four(b, 0x1712);
            let title = four(b, 0x1716);
            let most: int = if four(b, 0x348) == 2 {
                0x3D00
            } else {
                0x4000
            };
            let png = seq![0x89u8, 0x50, 0x4E, 0x47, 0x0D, 0x0A, 0x1A, 0x0A];
            &&& r.thumbnail is Some <==> 8 <= n <= most && b.subrange(0x171A, 0x1722) == png
            &&& r.thumbnail matches Some(t) ==> t@ == b.subrange(0x171A, 0x171A + n)
            &&& r.title_thumbnail is Some <==> 8 <= title <= most && b.subrange(0x571A, 0x5722)
                == png
            &&& r.title_thumbnail matches Some(t) ==> t@ == b.subrange(0x571A, 0x571A + title)
        }),
{
    let b = r.source.bytes();
    let h = header_of(b);
    lemma_four(h, 0x1712);
    lemma_four(h, 0x1716);
    lemma_four(h, 0x348);
    assert(field(h, 0x171A, 8) =~= b.subrange(0x171A, 0x1722));
    assert(field(h, 0x571A, 8) =~= b.subrange(0x571A, 0x5722));
    let n = four(b, 0x1712);
    let title = four(b, 0x1716);
    if n <= 0x4000 {
        assert(field(h, 0x171A, n) =~= b.subrange(0x171A, 0x171A + n));
    }
    if title <= 0x4000 {
        assert(field(h, 0x571A, title) =~= b.subrange(0x571A, 0x571A + title));
    }
}

/// The name of an opened package is that in the pairs of bytes from 0x411 on, up to the first pair
/// of zeros and at most 128 of them; if the first is zero it has no name.
pub proof fn name_is_read_in_place<S: ByteSource>(r: StfsReader<S>)
    requires
        r.header_matches(),
        r.source.bytes().len() >= 0x511,
    ensures
        ({
            let b = r.source.bytes();
            &&& r.display_name is None <==> two(b, 0x411) == 0
            &&& r.display_name matches Some(s) ==> exists|u: Seq<u16>|
                {
                    &&& s@ == #[trigger] utf16_lossy(u)
                    &&& 1 <= u.len() <= 0x80
                    &&& forall|i: int|
                        0 <= i < u.len() ==> #[trigger] u[i] == two(b, 0x411 + 2 * i) && u[i] != 0
                    &&& u.len() < 0x80 ==> two(b, 0x411int + 2 * u.len()) == 0
                }
        }),
{
    let b = r.source.bytes();
    let h = header_of(b);
    let u = units_at(h, 0x411, 0x80);
    lemma_units(h, b, 0x411, 0x80);
    lemma_two(h, 0x411);
    if r.display_name is Some {
        assert(r.display_name->0@ == utf16_lossy(u));
    }
}

proof fn lemma_units(h: Seq<u8>, b: Seq<u8>, at: int, n: nat)
    requires
        0 <= at,
        at + 2 * n <= h.len() <= b.len(),
        forall|i: int| 0 <= i < h.len() ==> h[i] == #[trigger] b[i],
    ensures
        ({
            let u = units_at(h, at, n);
            &&& u.len() <= n
            &&& forall|i: int|
                0 <= i < u.len() ==> #[trigger] u[i] == two(b, at + 2 * i) && u[i] != 0
            &&& u.len() < n ==> two(b, at + 2 * u.len()) == 0
            &&& n > 0 && two(b, at) != 0 ==> u.len() > 0
        }),
    decreases n,
{
    let u = units_at(h, at, n);
    if n > 0 {
        lemma_two(h, at);
        if be_val(field(h, at, 2)) != 0 {
            lemma_units(h, b, at + 2, (n - 1) as nat);
            let rest = units_at(h, at + 2, (n - 1) as nat);
            assert forall|i: int| 0 <= i < u.len() implies #[trigger] u[i] == two(b, at + 2 * i)
                && u[i] != 0 by {
                if i > 0 {
                    assert(u[i] == rest[i - 1]);
                }
            }
        }
    }
}

/// What an avatar item or a video says of itself stands at 0x3D9: of an avatar item least
/// significant byte first, and only if its skeleton version is 1, 2 or 3.
pub proof fn item_is_read_in_place<S: ByteSource>(r: StfsReader<S>)
    requires
        r.header_matches(),
        r.source.bytes().len() >= 0x411,
    ensures
        ({
            let b = r.source.bytes();
            &&& r.avatar_item_metadata is Some <==> four(b, 0x344) == 0x9000 && 1 <= b[0x3F1] <= 3
            &&& r.avatar_item_metadata matches Some(m) ==> {
                &&& m.sub_category == four_back(b, 0x3D9)
                &&& m.colorizable == four_back(b, 0x3DD)
                &&& m.guid@ == b.subrange(0x3E1, 0x3F1)
                &&& m.skeleton_version == b[0x3F1]
            }
            &&& r.video_metadata is Some <==> four(b, 0x344) == 0x9_0000
            &&& r.video_metadata matches Some(m) ==> {
                &&& m.series_id@ == b.subrange(0x3D9, 0x3E9)
                &&& m.season_id@ == b.subrange(0x3E9, 0x3F9)
                &&& m.season_number == two(b, 0x3F9)
                &&& m.episode_number == two(b, 0x3FB)
            }
        }),
{
    let b = r.source.bytes();
    let h = header_of(b);
    content_type_is_read_by_its_number(r);
    lemma_four(h, 0x3D9);
    lemma_four(h, 0x3DD);
    lemma_two(h, 0x3F9);
    lemma_two(h, 0x3FB);
    assert(field(h, 0x3E1, 16) =~= b.subrange(0x3E1, 0x3F1));
    assert(field(h, 0x3D9, 16) =~= b.subrange(0x3D9, 0x3E9));
    assert(field(h, 0x3E9, 16) =~= b.subrange(0x3E9, 0x3F9));
}

proof fn lemma_version(b: Seq<u8>, at: int)
    ensures
        ({
            let v = version_of(four(b, at) as u32);
            &&& v.major == b[at] / 16
            &&& v.minor == b[at] % 16
            &&& v.build == two(b, at + 1)
            &&& v.revision == b[at + 3]
        }),
{
    let raw = four(b, at);
    let low = b[at + 1] * 0x100 + b[at + 2];
    assert(raw == b[at] * 0x100_0000 + low * 0x100 + b[at + 3]);
    assert(raw / 0x1000_0000 == b[at] / 16);
    assert(raw / 0x100_0000 == b[at]);
    assert(raw / 0x100 == b[at] * 0x1_0000 + low);
}

/// The trailer of an installer stands at 0x971A, if the header has room for its longest form: four
/// letters say of what kind it is, and what follows is read most significant byte first.
#[verifier::rlimit(40)]
pub proof fn installer_is_read_in_place<S: ByteSource>(r: StfsReader<S>)
    requires
        r.header_matches(),
        r.source.bytes().len() >= 0xAD0E,
    ensures
        ({
            let b = r.source.bytes();
            let t = four(b, 0x971A);
            let room = r.first_hash_table_address >= 0xAD0E;
            let empty = t == 0;
            let update = t == 0x5355_5044 || t == 0x5455_5044;
            let cache = t == 0x5024_5355 || t == 0x5024_5455 || t == 0x5024_5443;
            &&& r.installer_metadata is Some <==> room && (empty || update || cache)
            &&& r.installer_metadata matches Some(m) ==> match m {
                InstallerMetadata::Empty => empty,
                InstallerMetadata::Version { is_title_update, base_version, version } => {
                    &&& update
                    &&& is_title_update == (t == 0x5455_5044)
                    &&& base_version.major == b[0x971E] / 16
                    &&& base_version.minor == b[0x971E] % 16
                    &&& base_version.build == two(b, 0x971F)
                    &&& base_version.revision == b[0x9721]
                    &&& version.major == b[0x9722] / 16
                    &&& version.minor == b[0x9722] % 16
                    &&& version.build == two(b, 0x9723)
                    &&& version.revision == b[0x9725]
                },
                InstallerMetadata::ProgressCache {
                    kind,
                    resume_state,
                    current_file_index,
                    current_file_offset,
                    bytes_processed,
                    last_modified_high,
                    last_modified_low,
                    cab_resume_data,
                } => {
                    &&& cache
                    &&& kind == ProgressCacheKind::SystemUpdate <==> t == 0x5024_5355
                    &&& kind == ProgressCacheKind::TitleUpdate <==> t == 0x5024_5455
                    &&& kind == ProgressCacheKind::TitleContent <==> t == 0x5024_5443
                    &&& resume_state == four(b, 0x971E)
                    &&& current_file_index == four(b, 0x9722)
                    &&& current_file_offset == four(b, 0x9726) * 0x1_0000_0000 + four(b, 0x972A)
                    &&& bytes_processed == four(b, 0x972E) * 0x1_0000_0000 + four(b, 0x9732)
                    &&& last_modified_high == four(b, 0x9736)
                    &&& last_modified_low == four(b, 0x973A)
                    &&& cab_resume_data@ == b.subrange(0x973E, 0xAD0E)
                },
            }
        }),
{
    let b = r.source.bytes();
    let h = header_of(b);
    lemma_four(h, 0x971A);
    lemma_four(h, 0x971E);
    lemma_four(h, 0x9722);
    lemma_eight(h, 0x9726);
    lemma_eight(h, 0x972E);
    lemma_four(h, 0x9736);
    lemma_four(h, 0x973A);
    lemma_version(h, 0x971E);
    lemma_version(h, 0x9722);
    assert forall|i: int| 0 <= i < 0xAD0E implies h[i] == #[trigger] b[i] by {
    }
    assert(field(h, 0x973E, 0x15D0) =~= b.subrange(0x973E, 0xAD0E));
}

/// Where the blocks of a package begin is its header's length, rounded up to a block. A package has
/// one level of tables up to 170 blocks, two up to 170 times as many, and three up to 170 times as
/// many again; with none or more it is refused, as is one whose descriptor is of another kind.
pub proof fn blocks_are_found_by_the_header(bytes: Seq<u8>, m: StfsMetadata)
    ensures
        ({
            let n = m.volume_descriptor.allocated_block_count;
            let r = geometry_of(bytes, m);
            &&& bytes.len() <= 0x411 <==> r == Err::<Geometry, StfsReadError>(
                StfsReadError::TooSmall,
            )
            &&& r is Ok <==> bytes.len() > 0x411 && header_prefix_of(header_of(bytes)) is Ok && 1
                <= n <= 170 * 170 * 170 && m.header_size <= 0xFFFF_F000 && bytes[0x3A9] == 0
                && bytes[0x3AA] == 0 && bytes[0x3AB] == 0 && bytes[0x3AC] == 0
            &&& r matches Ok(g) ==> {
                &&& g.allocated == n
                &&& g.block_separation == m.volume_descriptor.block_separation
                &&& g.level == Level::Zero <==> n <= 170
                &&& g.level == Level::One <==> 170 < n <= 170 * 170
                &&& g.level == Level::Two <==> 170 * 170 < n
                &&& g.first_hash_table_address % 4096 == 0
                &&& m.header_size <= g.first_hash_table_address < m.header_size + 4096
            }
        }),
{
    let h = header_of(bytes);
    rounding_goes_up_to_the_next_multiple(m.header_size as int, 0x1000);
    if bytes.len() > 0x411 {
        lemma_four(h, 0x3A9);
    }
}

/// Slot `k` of a block of the listing stands in its 64 bytes from `64 * k` on. A slot whose name
/// has no length is passed over; every other adds its entry behind those before it.
pub proof fn listing_slots_are_read_in_place(b: Seq<u8>, first: int, k: int)
    requires
        0 <= k,
        (k + 1) * 0x40 <= b.len(),
        0 <= first,
    ensures
        block_entries(b, first, 0).len() == 0,
        ({
            let at = 0x40 * k;
            let flags = b[at + 0x28];
            let before = block_entries(b, first, k);
            let now = block_entries(b, first, k + 1);
            if flags % 0x40 == 0 {
                now == before
            } else {
                let e = now.last();
                let n: int = if flags % 0x40 <= 40 {
                    flags as int % 0x40
                } else {
                    40
                };
                &&& now == before.push(e)
                &&& e.name == utf8_text(b.subrange(at, at + n))
                &&& e.entry_index == (first + k) % 0x1_0000
                &&& e.is_directory == (flags >= 0x80)
                &&& e.is_contiguous == (flags % 0x80 >= 0x40)
                &&& e.starting_block_num == three_back(b, at + 0x2F)
                &&& e.path_indicator == two(b, at + 0x32)
                &&& e.file_size == four(b, at + 0x34)
            }
        }),
{
    let at = 0x40 * k;
    let s = field(b, k * 0x40, 0x40);
    assert(s.len() == 0x40);
    lemma_three(s, 0x2F);
    lemma_two(s, 0x32);
    lemma_four(s, 0x34);
    let n: int = if s[0x28] % 0x40 <= 40 {
        s[0x28] as int % 0x40
    } else {
        40
    };
    assert(s.take(n) =~= b.subrange(at, at + n));
    let now = block_entries(b, first, k + 1);
    if s[0x28] % 0x40 != 0 {
        assert(now =~= block_entries(b, first, k).push(now.last()));
    }
}

/// `way` leads from the root down to entry `k`: each entry of it but the last is a directory, the
/// next one names it as its parent, and the first has no parent.
pub open spec fn leads_down(entries: Seq<EntryModel>, way: Seq<int>, k: int) -> bool {
    &&& way.len() >= 1
    &&& way.last() == k
    &&& forall|j: int| 0 <= j < way.len() ==> 0 <= #[trigger] way[j] < entries.len()
    &&& entries[way[0]].path_indicator == 0xFFFF
    &&& forall|j: int|
        0 < j < way.len() ==> entries[#[trigger] way[j]].path_indicator
            == entries[way[j - 1]].entry_index && entries[way[j - 1]].is_directory
            && entries[way[j]].path_indicator != 0xFFFF
}

/// The path of an entry is made of the names on the way down to it.
pub proof fn paths_lead_down_to_their_entries(entries: Seq<EntryModel>, k: int)
    requires
        0 <= k < entries.len(),
        entry_path(entries, k) is Ok,
    ensures
        exists|way: Seq<int>| #[trigger]
            leads_down(entries, way, k) && entry_path(entries, k)->Ok_0 == way.map_values(
                |i: int| entries[i].name,
            ),
        entry_path(entries, k)->Ok_0.len() <= 4096,
{
    let above = lemma_way(entries, entries[k].path_indicator, 4095);
    let way = above.push(k);
    let names = entry_path(entries, k)->Ok_0;
    assert(leads_down(entries, way, k)) by {
        if entries[k].path_indicator != 0xFFFF {
            assert(entries[way[way.len() - 2]].entry_index == entries[k].path_indicator);
        }
    }
    assert(names =~= way.map_values(|i: int| entries[i].name));
}

proof fn lemma_way(entries: Seq<EntryModel>, parent: u16, steps: nat) -> (way: Seq<int>)
    requires
        ancestors(entries, parent, steps) is Ok,
    ensures
        parent == 0xFFFF <==> way.len() == 0,
        way.len() <= steps,
        way.len() > 0 ==> leads_down(entries, way, way.last()) && entries[way.last()].is_directory
            && entries[way.last()].entry_index == parent,
        ancestors(entries, parent, steps)->Ok_0 == way.map_values(|i: int| entries[i].name),
    decreases steps,
{
    if parent == 0xFFFF {
        let way = Seq::<int>::empty();
        assert(way.map_values(|i: int| entries[i].name) =~= Seq::empty());
        way
    } else {
        let i = last_with_index(entries, parent, entries.len() as int)->Some_0;
        lemma_last(entries, parent, entries.len() as int);
        let above = lemma_way(entries, entries[i].path_indicator, (steps - 1) as nat);
        let way = above.push(i);
        assert(ancestors(entries, parent, steps)->Ok_0 =~= way.map_values(
            |i: int| entries[i].name,
        ));
        way
    }
}

proof fn lemma_last(entries: Seq<EntryModel>, index: u16, k: int)
    requires
        0 <= k <= entries.len(),
    ensures
        last_with_index(entries, index, k) matches Some(i) ==> 0 <= i < k
            && entries[i].entry_index == index,
    decreases k,
{
    if k > 0 {
        lemma_last(entries, index, k - 1);
    }
}

/// The files of a listing are its entries that are no directories, in their order, each with its
/// path, its first block and its size.
pub proof fn every_file_is_listed(entries: Seq<EntryModel>, k: int)
    requires
        0 <= k < entries.len(),
        listed_files(entries, k + 1) is Ok,
    ensures
        listed_files(entries, k) is Ok,
        listed_files(entries, 0)->Ok_0.len() == 0,
        ({
            let before = listed_files(entries, k)->Ok_0;
            let now = listed_files(entries, k + 1)->Ok_0;
            if entries[k].is_directory {
                now == before
            } else {
                &&& now.len() == before.len() + 1
                &&& now.drop_last() == before
                &&& entry_path(entries, k) is Ok
                &&& now.last().path == joined(entry_path(entries, k)->Ok_0)
                &&& now.last().starting_block == entries[k].starting_block_num
                &&& now.last().size == entries[k].file_size
                &&& now.last().is_contiguous == entries[k].is_contiguous
            }
        }),
{
    let before = listed_files(entries, k)->Ok_0;
    if !entries[k].is_directory {
        assert(listed_files(entries, k + 1)->Ok_0.drop_last() =~= before);
    }
}

/// An entry is found under its index; where two have the same, the later one is.
pub proof fn later_entries_take_an_index(entries: Seq<EntryModel>, index: u16)
    ensures
        match last_with_index(entries, index, entries.len() as int) {
            Some(i) => {
                &&& 0 <= i < entries.len()
                &&& entries[i].entry_index == index
                &&& forall|j: int|
                    i < j < entries.len() ==> (#[trigger] entries[j]).entry_index != index
            },
            None => forall|j: int|
                0 <= j < entries.len() ==> (#[trigger] entries[j]).entry_index != index,
        },
{
    lemma_later(entries, index, entries.len() as int);
}

proof fn lemma_later(entries: Seq<EntryModel>, index: u16, k: int)
    requires
        0 <= k <= entries.len(),
    ensures
        match last_with_index(entries, index, k) {
            Some(i) => {
                &&& 0 <= i < k
                &&& entries[i].entry_index == index
                &&& forall|j: int| i < j < k ==> (#[trigger] entries[j]).entry_index != index
            },
            None => forall|j: int| 0 <= j < k ==> (#[trigger] entries[j]).entry_index != index,
        },
    decreases k,
{
    if k > 0 {
        lemma_later(entries, index, k - 1);
    }
}

/// A path is refused where a name in it is unsafe, where its directory is missing or is a file, or
/// where it stands more than 4095 directories deep.
pub proof fn paths_without_a_way_are_refused(entries: Seq<EntryModel>, k: int)
    requires
        0 <= k < entries.len(),
    ensures
        !safe_component(entries[k].name) ==> entry_path(entries, k) is Err,
        entries[k].path_indicator != 0xFFFF && (forall|j: int|
            0 <= j < entries.len() ==> (#[trigger] entries[j]).entry_index
                != entries[k].path_indicator) ==> entry_path(entries, k) is Err,
        entries[k].path_indicator != 0xFFFF && (forall|j: int|
            0 <= j < entries.len() && (#[trigger] entries[j]).entry_index
                == entries[k].path_indicator ==> !entries[j].is_directory) ==> entry_path(
            entries,
            k,
        ) is Err,
        entries[k].path_indicator == 0xFFFF && safe_component(entries[k].name) ==> entry_path(
            entries,
            k,
        ) == Ok::<Seq<Seq<char>>, StfsReadError>(seq![entries[k].name]),
{
    later_entries_take_an_index(entries, entries[k].path_indicator);
    assert(Seq::<Seq<char>>::empty().push(entries[k].name) =~= seq![entries[k].name]);
}

/// What is no package is refused for the first of these that holds: it is too short, it does not
/// begin as a package does, it has no blocks, its descriptor is of another kind, its header is too
/// long, or it has too many blocks.
pub proof fn unfit_packages_are_refused(bytes: Seq<u8>, m: StfsMetadata)
    requires
        bytes.len() > 0x411,
    ensures
        ({
            let r = geometry_of(bytes, m);
            let n = m.volume_descriptor.allocated_block_count;
            let word = bytes.take(4);
            let begins = word == seq![0x43u8, 0x4F, 0x4E, 0x20] || word == seq![
                0x4Cu8,
                0x49,
                0x56,
                0x45,
            ] || word == seq![0x50u8, 0x49, 0x52, 0x53];
            let kind = four(bytes, 0x3A9);
            &&& !begins <==> r == Err::<Geometry, StfsReadError>(StfsReadError::NotAPackage)
            &&& begins && n == 0 <==> r == Err::<Geometry, StfsReadError>(
                StfsReadError::NoAllocatedBlocks,
            )
            &&& begins && n > 0 && kind != 0 <==> r == Err::<Geometry, StfsReadError>(
                StfsReadError::NotStfsShaped(kind as u32),
            )
            &&& begins && n > 0 && kind == 0 && m.header_size > 0xFFFF_F000 <==> r == Err::<
                Geometry,
                StfsReadError,
            >(StfsReadError::HeaderTooLarge)
            &&& begins && n > 170 * 170 * 170 && kind == 0 && m.header_size <= 0xFFFF_F000 <==> r
                == Err::<Geometry, StfsReadError>(StfsReadError::InvalidBlockCount)
        }),
{
    let h = header_of(bytes);
    packages_are_known_by_their_word(h);
    assert(h.take(4) =~= bytes.take(4));
    lemma_four(h, 0x3A9);
}

} // verus!
