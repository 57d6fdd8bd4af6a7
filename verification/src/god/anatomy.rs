//! How a package is named, counted and laid out.
use crate::bytes::{ceil_div, field};
use crate::god::read::{offset_of_sector, part_of_sector, sectors_by_size, GodReadError, GodSource};
use crate::god::write::{
    is_opened, part_count_of, part_path, path_prefix, planned_part_size, subparts, GodSession,
    GodWriteError,
};
use crate::source::{ByteSource, ImageSource};
use crate::stfs::format::ContentType;
use crate::stfs::header::TitleExecutionInfo;
use crate::stfs::reading::{four, lemma_four};
use crate::utils::text::{decimal4, hex_digits};
use vstd::prelude::*;

verus! {

/// A package is named by its title, its content type and its media, each in eight hexadecimal
/// digits, with a slash between each two; an Xbox title has its title for its media.
pub proof fn packages_are_named_by_title_and_media(info: TitleExecutionInfo, t: ContentType)
    ensures
        ({
            let kind: nat = match t {
                ContentType::InstalledGame => 0x4000,
                ContentType::XboxOriginal => 0x5000,
                ContentType::GamesOnDemand => 0x7000,
                ContentType::AvatarItem => 0x9000,
                ContentType::Video => 0x9_0000,
            };
            let media = if t == ContentType::XboxOriginal {
                info.title_id
            } else {
                info.media_id
            };
            path_prefix(info, t) == hex_digits(info.title_id as nat, 8) + seq!['/'] + hex_digits(
                kind,
                8,
            ) + seq!['/'] + hex_digits(media as nat, 8)
        }),
{
    reveal_strlit("/");
    assert("/"@ =~= seq!['/']);
}

/// Part `p` stands in the package's directory, under `Data` and its number in four digits.
pub proof fn parts_are_numbered_from_zero(prefix: Seq<char>, p: int)
    requires
        0 <= p,
    ensures
        part_path(prefix, p) == prefix + seq![
            '.',
            'd',
            'a',
            't',
            'a',
            '/',
            'D',
            'a',
            't',
            'a',
        ] + decimal4(p as nat),
{
    reveal_strlit(".data/Data");
    assert(".data/Data"@ =~= seq!['.', 'd', 'a', 't', 'a', '/', 'D', 'a', 't', 'a']);
}

/// As many parts are written as hold the data, 0xA1C4 blocks of 4096 bytes to each. A part has a
/// master hash block, a hash block for each 0xCC blocks begun, and its share of the data.
pub proof fn parts_hold_the_data(size: int, p: int)
    requires
        0 < size,
        0 <= p < part_count_of(size),
    ensures
        ({
            let n = part_count_of(size);
            let share = if p < n - 1 {
                0xA1C4int * 0x1000
            } else {
                size - (n - 1) * (0xA1C4 * 0x1000)
            };
            let tables = subparts(size, p);
            &&& (n - 1) * (0xA1C4 * 0x1000) < size <= n * (0xA1C4 * 0x1000)
            &&& (tables - 1) * (0xCC * 0x1000) < share <= tables * (0xCC * 0x1000)
            &&& planned_part_size(size, p) == 0x1000 + tables * 0x1000 + share
        }),
{
    let blocks = ceil_div(size, 0x1000);
    assert((blocks - 1) * 0x1000 < size <= blocks * 0x1000);
    let n = part_count_of(size);
    assert((n - 1) * 0xA1C4 < blocks <= n * 0xA1C4);
    assert((n - 1) * 0xA1C4 + 1 <= blocks);
    assert(0xA1C4int * 0x1000 == 0xA1C_4000 && 0xCCint * 0x1000 == 0xC_C000);
    assert((n - 1) * 0xA1C_4000 < size <= n * 0xA1C_4000);
    let left = size - p * 0xA1C_4000;
    if p < n - 1 {
        assert(left >= 0xA1C_4000);
        assert(subparts(size, p) == 0xCB);
    } else {
        assert(0 < left <= 0xA1C_4000);
        let tables = ceil_div(left, 0xC_C000);
        assert((tables - 1) * 0xC_C000 < left <= tables * 0xC_C000);
    }
}

/// Sector `s` is half of block `s / 2`. It stands in the part that holds the block, 0xA1C4 blocks to
/// each, behind the master hash block, the hash blocks of the groups of 0xCC up to its own, and the
/// blocks before it.
pub proof fn sectors_stand_behind_their_hash_blocks<S: ByteSource>(
    g: GodSource<S>,
    p: int,
    group: int,
    k: int,
    half: int,
)
    requires
        g.wf(),
        0 <= p < g.parts@.len(),
        0 <= group < 0xCB,
        0 <= k < 0xCC,
        0 <= half < 2,
    ensures
        ({
            let s = (p * 0xA1C4 + group * 0xCC + k) * 2 + half;
            let at = (1 + group * 0xCD + 1 + k) * 0x1000 + half * 2048;
            let b = g.parts@[p].bytes();
            &&& at + 2048 <= b.len() ==> g.sector(s) == Ok::<Seq<u8>, GodReadError>(
                b.subrange(at, at + 2048),
            )
            &&& at + 2048 > b.len() ==> g.sector(s) is Err
        }),
{
    let block = group * 0xCC + k;
    let s = (p * 0xA1C4 + block) * 2 + half;
    assert(block < 0xA1C4);
    assert(s / 2 == p * 0xA1C4 + block);
    assert(s / 2 / 0xA1C4 == p);
    assert(s / 2 % 0xA1C4 == block);
    assert(s % 2 == half);
    assert(block / 0xCC == group);
    assert(part_of_sector(s) == p);
    let at = (1 + group * 0xCD + 1 + k) * 0x1000 + half * 2048;
    assert(offset_of_sector(s) == at);
    if at + 2048 <= g.parts@[p].bytes().len() {
        assert(field(g.parts@[p].bytes(), at, 2048) =~= g.parts@[p].bytes().subrange(
            at,
            at + 2048,
        ));
    }
}

/// How many sectors a package has follows from its last part: of `d` blocks of data, with their
/// hash blocks, two to each, behind the full parts before it.
pub proof fn sectors_are_counted_by_the_last_part(parts: int, d: int, groups: int, rest: int)
    requires
        1 <= parts,
        1 <= d <= 0xA1C4,
        (groups - 1) * 0xCC < d <= groups * 0xCC,
        0 <= rest < 0x1000,
    ensures
        sectors_by_size(parts, (1 + groups + d) * 0x1000 + rest) == 2 * (0xA1C4 * (parts - 1) + d),
{
    let size = (1 + groups + d) * 0x1000 + rest;
    assert(size / 0x1000 == 1 + groups + d);
    assert(ceil_div(groups + d, 0xCD) == groups);
}

/// Only a Games on Demand title can be signed, and it is then an installed game; any other package
/// keeps its content type. What is refused besides has more than 32 bits' worth of blocks.
pub proof fn signed_packages_are_installed_games<S: ByteSource>(
    source: S,
    data_size: u64,
    info: TitleExecutionInfo,
    t: ContentType,
    title: Option<String>,
    signed: bool,
    device: Option<[u8; 20]>,
    r: Result<GodSession<S>, GodWriteError>,
)
    requires
        is_opened(source, data_size, info, t, title, signed, device, r),
    ensures
        r matches Ok(s) ==> {
            &&& signed ==> t == ContentType::GamesOnDemand && s.content_type
                == ContentType::InstalledGame
            &&& !signed ==> s.content_type == t
            &&& s.exe_info == info
            &&& s.game_title == title
            &&& s.device_id == device
            &&& s.data_size == data_size
            &&& s.source == source
        },
        r matches Err(GodWriteError::NotSignable(v)) ==> signed && t != ContentType::GamesOnDemand,
        signed && t != ContentType::GamesOnDemand ==> r is Err,
        r is Err && !(signed && t != ContentType::GamesOnDemand) ==> data_size
            > 0xFFFF_FFFF * 0x1000,
{
    if r is Err && !(signed && t != ContentType::GamesOnDemand) {
        let blocks = ceil_div(data_size as int, 0x1000);
        assert(blocks > u32::MAX);
    }
}

/// A header that is supplied gives the content type by its number, and the images behind their
/// lengths: at least eight bytes, at most 0x4000, or 0x3D00 in the second version, that begin as a
/// PNG does.
pub proof fn header_is_read_in_place<S: ByteSource>(g: GodSource<S>, h: Seq<u8>)
    requires
        g.header_matches(h),
        h.len() >= 0xAD0E,
    ensures
        ({
            let kind = four(h, 0x344);
            let n = four(h, 0x1712);
            let title = four(h, 0x1716);
            let most: int = if four(h, 0x348) == 2 {
                0x3D00
            } else {
                0x4000
            };
            let png = seq![0x89u8, 0x50, 0x4E, 0x47, 0x0D, 0x0A, 0x1A, 0x0A];
            &&& g.header_content_type == Some(ContentType::InstalledGame) <==> kind == 0x4000
            &&& g.header_content_type == Some(ContentType::XboxOriginal) <==> kind == 0x5000
            &&& g.header_content_type == Some(ContentType::GamesOnDemand) <==> kind == 0x7000
            &&& g.header_content_type == Some(ContentType::AvatarItem) <==> kind == 0x9000
            &&& g.header_content_type == Some(ContentType::Video) <==> kind == 0x9_0000
            &&& g.header_thumbnail is Some <==> 8 <= n <= most && h.subrange(0x171A, 0x1722) == png
            &&& g.header_thumbnail matches Some(t) ==> t@ == h.subrange(0x171A, 0x171A + n)
            &&& g.header_title_thumbnail is Some <==> 8 <= title <= most && h.subrange(
                0x571A,
                0x5722,
            ) == png
            &&& g.header_title_thumbnail matches Some(t) ==> t@ == h.subrange(
                0x571A,
                0x571A + title,
            )
        }),
{
    lemma_four(h, 0x344);
    lemma_four(h, 0x1712);
    lemma_four(h, 0x1716);
    lemma_four(h, 0x348);
    assert(field(h, 0x171A, 8) =~= h.subrange(0x171A, 0x1722));
    assert(field(h, 0x571A, 8) =~= h.subrange(0x571A, 0x5722));
    let n = four(h, 0x1712);
    let title = four(h, 0x1716);
    if n <= 0x4000 {
        assert(field(h, 0x171A, n) =~= h.subrange(0x171A, 0x171A + n));
    }
    if title <= 0x4000 {
        assert(field(h, 0x571A, title) =~= h.subrange(0x571A, 0x571A + title));
    }
}

/// Without a header nothing is said of the package; without parts, or with a last part shorter
/// than a block, there is none.
pub proof fn unfit_parts_are_refused<S: ByteSource>(
    parts: Vec<S>,
    header: Option<S>,
    r: Result<GodSource<S>, GodReadError>,
)
    requires
        crate::god::read::is_opened(parts, header, r),
    ensures
        r matches Ok(g) ==> {
            &&& parts@.len() >= 1
            &&& parts@.last().bytes().len() >= 0x1000
            &&& g.parts@ == parts@
            &&& g.sector_count() == sectors_by_size(
                parts@.len() as int,
                parts@.last().bytes().len() as int,
            )
            &&& header is None ==> g.header_content_type is None && g.header_thumbnail is None
                && g.header_title_thumbnail is None
        },
        parts@.len() == 0 ==> r is Err,
        parts@.len() >= 1 && parts@.last().bytes().len() < 0x1000 ==> r is Err,
{
}

/// Of an image that ends before the data does as much is written as is there.
pub proof fn short_images_are_written_as_far_as_they_go<S: ByteSource>(s: GodSession<S>)
    ensures
        s.size() <= s.data_size,
        s.size() <= s.img().len(),
        s.size() == s.data_size || s.size() == s.img().len(),
{
}

} // verus!
