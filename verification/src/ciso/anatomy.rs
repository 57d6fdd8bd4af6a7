//! What the parts of a written image hold, byte by byte, and what of them is read.
use crate::bytes::{field, le_bytes, rounding_goes_up_to_the_next_multiple, zeros};
use crate::ciso::format::{
    cso_header_bytes, index_bytes, lemma_index_len, output_name, part_starts, starts_part,
    CsoFields, CsoHeaderError, IndexTableEntry,
};
use crate::ciso::read::{parse_first_part, stored_at, stored_len, CisoError, CisoSource};
use crate::ciso::round_trip::{head_of, is_written, lemma_full_part};
use crate::ciso::write::{
    body, entry_of_part, lemma_stored_field, position, sector_at, CisoPart, CisoSession,
    CisoWriteError,
};
use crate::lz4::{lz4_frame, lz4_frame_decoded, lz4_frame_head};
use crate::source::ByteSource;
use crate::utils::text::decimal;
use vstd::prelude::*;

verus! {

broadcast use crate::bytes::group_fields;

/// An image begins with a header of 24 bytes: the letters `CISO`, then in little-endian order the
/// header's length, the length of the sectors and the length of a sector, a version and an
/// alignment in one byte each, and two zeros. Behind it stands the index, four bytes for each
/// sector and for the end.
pub proof fn image_begins_with_its_header(
    img: Seq<u8>,
    n: int,
    parts: Seq<CisoPart>,
    table: Seq<IndexTableEntry>,
    k: int,
)
    requires
        is_written(img, n, parts, table),
        0 <= k <= n,
    ensures
        ({
            let b = parts[0].image(img, 0, head_of(n, table));
            &&& b.len() >= 24 + 4 * (n + 1)
            &&& b.subrange(0, 4) == seq![0x43u8, 0x49, 0x53, 0x4F]
            &&& b.subrange(4, 8) == le_bytes(24, 4)
            &&& b.subrange(8, 16) == le_bytes((n * 2048) as nat, 8)
            &&& b.subrange(16, 20) == le_bytes(2048, 4)
            &&& b.subrange(20, 24) == seq![2u8, 2, 0, 0]
            &&& b.subrange(24 + 4 * k, 28 + 4 * k) == le_bytes(table[k].raw as nat, 4)
        }),
{
    let head = head_of(n, table);
    let h = cso_header_bytes((n * 2048) as u64);
    let b = parts[0].image(img, 0, head);
    lemma_head(n * 2048);
    lemma_index_len(table, n + 1);
    lemma_entry(table, k, n + 1);
    assert(head.len() == 24 + 4 * (n + 1));
    assert(b.take(head.len() as int) =~= head);
    assert(b.subrange(0, 4) =~= h.subrange(0, 4));
    assert(b.subrange(4, 8) =~= h.subrange(4, 8));
    assert(b.subrange(8, 16) =~= h.subrange(8, 16));
    assert(b.subrange(16, 20) =~= h.subrange(16, 20));
    assert(b.subrange(20, 24) =~= h.subrange(20, 24));
    assert(b.subrange(24 + 4 * k, 28 + 4 * k) =~= index_bytes(table, n + 1).subrange(
        4 * k,
        4 * k + 4,
    ));
}

proof fn lemma_head(size: int)
    requires
        0 <= size <= u64::MAX,
    ensures
        ({
            let h = cso_header_bytes(size as u64);
            &&& h.len() == 24
            &&& h.subrange(0, 4) == seq![0x43u8, 0x49, 0x53, 0x4F]
            &&& h.subrange(4, 8) == le_bytes(24, 4)
            &&& h.subrange(8, 16) == le_bytes(size as nat, 8)
            &&& h.subrange(16, 20) == le_bytes(2048, 4)
            &&& h.subrange(20, 24) == seq![2u8, 2, 0, 0]
        }),
{
    let h = cso_header_bytes(size as u64);
    lemma_magic();
    assert(h.subrange(0, 4) =~= le_bytes(0x4F53_4943, 4));
    assert(h.subrange(4, 8) =~= le_bytes(24, 4));
    assert(h.subrange(8, 16) =~= le_bytes(size as nat, 8));
    assert(h.subrange(16, 20) =~= le_bytes(2048, 4));
    assert(h.subrange(20, 24) =~= seq![2u8, 2, 0, 0]);
}

proof fn lemma_magic()
    ensures
        le_bytes(0x4F53_4943, 4) == seq![0x43u8, 0x49, 0x53, 0x4F],
{
    reveal_with_fuel(le_bytes, 5);
    assert(le_bytes(0x4F53_4943, 4) =~= seq![0x43u8, 0x49, 0x53, 0x4F]);
}

proof fn lemma_entry(table: Seq<IndexTableEntry>, i: int, k: int)
    requires
        0 <= i < k <= table.len(),
    ensures
        index_bytes(table, k).subrange(4 * i, 4 * i + 4) == le_bytes(table[i].raw as nat, 4),
    decreases k,
{
    lemma_index_len(table, k);
    lemma_index_len(table, k - 1);
    let all = index_bytes(table, k);
    if i == k - 1 {
        assert(all.subrange(4 * i, 4 * i + 4) =~= le_bytes(table[i].raw as nat, 4));
    } else {
        lemma_entry(table, i, k - 1);
        assert(all.subrange(4 * i, 4 * i + 4) =~= index_bytes(table, k - 1).subrange(
            4 * i,
            4 * i + 4,
        ));
    }
}

/// A sector stands in its part where its entry says in fours: as the blocks of its LZ4 frame,
/// without the seven bytes before them and the four behind, if those are more than twelve bytes
/// shorter than the sector, else as it is. The entry's top bit says that it is compressed. The
/// first sector of a part stands behind the header and the index, or, but for the first part, at
/// its beginning; each next one at the first multiple of four behind the one before it, with zeros
/// between. A part ends with zeros at the first multiple of 1024.
#[verifier::rlimit(50)]
#[verifier::spinoff_prover]
pub proof fn sectors_stand_where_the_index_says(
    img: Seq<u8>,
    n: int,
    parts: Seq<CisoPart>,
    table: Seq<IndexTableEntry>,
    j: int,
    k: int,
)
    requires
        is_written(img, n, parts, table),
        0 <= j < parts.len(),
        parts[j].first_sector <= k < parts[j].end_sector,
    ensures
        ({
            let p = parts[j];
            let b = p.image(img, j, head_of(n, table));
            let sector = img.subrange(k * 2048, k * 2048 + 2048);
            let frame = lz4_frame(sector);
            let cut = frame.subrange(7, frame.len() - 4);
            let compressed = cut.len() + 12 < 2048;
            let kept = if compressed {
                cut
            } else {
                sector
            };
            let at = 4 * (table[k].raw % 0x8000_0000);
            &&& k < n
            &&& (table[k].raw >= 0x8000_0000) == compressed
            &&& at + kept.len() <= b.len()
            &&& b.subrange(at, at + kept.len()) == kept
            &&& k == p.first_sector ==> at == (if j == 0 {
                24 + 4 * (n + 1)
            } else {
                0
            })
            &&& k + 1 < p.end_sector ==> {
                let next = 4 * (table[k + 1].raw % 0x8000_0000);
                &&& at + kept.len() <= next < at + kept.len() + 4
                &&& forall|i: int| at + kept.len() <= i < next ==> #[trigger] b[i] == 0
            }
            &&& k + 1 == p.end_sector ==> {
                &&& b.len() % 1024 == 0
                &&& b.len() < at + kept.len() + 1024
                &&& forall|i: int| at + kept.len() <= i < b.len() ==> #[trigger] b[i] == 0
            }
            &&& b.len() == p.size
        }),
{
    let p = parts[j];
    let head = head_of(n, table);
    let b = p.image(img, j, head);
    let base = p.base as int;
    let first = p.first_sector as int;
    let end = p.end_sector as int;
    let sector = sector_at(img, k);
    lemma_full_part(img, n, parts, table, j);
    lemma_head(n * 2048);
    lemma_index_len(table, n + 1);
    assert(p.matches(img, n, j));
    assert(entry_of_part(table, p, img, k));
    assert(sector.len() == 2048);
    crate::ciso::write::lemma_stored_short(sector);
    let kept = crate::ciso::format::stored(sector);
    let at = position(img, base, first, k);
    let to = position(img, base, first, k + 1);
    lemma_stored_field(img, p, n, j, head, k);
    let before = body(img, base, first, k);
    rounding_goes_up_to_the_next_multiple(base + before.len(), 4);
    rounding_goes_up_to_the_next_multiple(base + body(img, base, first, k + 1).len(), 4);
    rounding_goes_up_to_the_next_multiple(base + body(img, base, first, end).len(), 1024);
    crate::ciso::write::lemma_body_at(img, base, first, k, end);
    assert(at % 4 == 0);
    assert(at == 4 * (table[k].raw % 0x8000_0000));
    let piece = field(b, at, to - at);
    assert(b.subrange(at, at + kept.len()) =~= piece.take(kept.len() as int));
    assert(piece.take(kept.len() as int) =~= kept);
    if k == first {
        assert(before =~= Seq::empty());
    }
    if k + 1 < end {
        assert(entry_of_part(table, p, img, k + 1));
        assert forall|i: int| at + kept.len() <= i < to implies #[trigger] b[i] == 0 by {
            assert(piece[i - at] == b[i]);
        }
    } else {
        let tail = zeros((p.size - base - p.data(img).len()) as nat);
        assert(p.data(img).len() == at - base + kept.len());
        assert forall|i: int| at + kept.len() <= i < b.len() implies #[trigger] b[i] == 0 by {
            let lead = if j == 0 {
                head
            } else {
                Seq::empty()
            };
            assert(lead.len() == base);
            assert(b[i] == tail[i - base - p.data(img).len()]);
        }
    }
}

/// A part takes in no sector at 0xFFBF_6000 or behind it, and every part but the last has come
/// that far. Each part begins with the sector behind the one before it, the first with sector 0,
/// and the last ends with the image. The index's last entry says in fours where the last sector
/// ends.
pub proof fn parts_end_at_the_split_point(
    img: Seq<u8>,
    n: int,
    parts: Seq<CisoPart>,
    table: Seq<IndexTableEntry>,
    j: int,
)
    requires
        is_written(img, n, parts, table),
        0 <= j < parts.len(),
    ensures
        j == 0 ==> parts[j].first_sector == 0,
        j + 1 < parts.len() ==> parts[j + 1].first_sector == parts[j].end_sector,
        j + 1 == parts.len() ==> parts[j].end_sector == n,
        parts[j].first_sector < parts[j].end_sector ==> 4 * (table[parts[j].end_sector - 1].raw
            % 0x8000_0000) < 0xFFBF_6000,
        j + 1 < parts.len() ==> {
            let last = img.subrange(
                (parts[j].end_sector - 1) * 2048,
                (parts[j].end_sector - 1) * 2048 + 2048,
            );
            let cut = lz4_frame(last).subrange(7, lz4_frame(last).len() - 4);
            let kept = if cut.len() + 12 < 2048 {
                cut.len() as int
            } else {
                2048
            };
            4 * (table[parts[j].end_sector - 1].raw % 0x8000_0000) + kept + 3 >= 0xFFBF_6000
        },
        j + 1 == parts.len() && parts[j].first_sector < n ==> {
            let last = img.subrange((n - 1) * 2048, n * 2048);
            let cut = lz4_frame(last).subrange(7, lz4_frame(last).len() - 4);
            let kept = if cut.len() + 12 < 2048 {
                cut.len() as int
            } else {
                2048
            };
            let end = 4 * (table[n - 1].raw % 0x8000_0000) + kept;
            4 * (table[n].raw % 0x8000_0000) <= end < 4 * (table[n].raw % 0x8000_0000) + 4
        },
{
    let p = parts[j];
    let base = p.base as int;
    let first = p.first_sector as int;
    let end = p.end_sector as int;
    lemma_full_part(img, n, parts, table, j);
    assert(p.matches(img, n, j));
    if first < end {
        assert(entry_of_part(table, p, img, end - 1));
        assert(position(img, base, first, end - 1) < 0xFFBF_6000);
        rounding_goes_up_to_the_next_multiple(base + body(img, base, first, end - 1).len(), 4);
        rounding_goes_up_to_the_next_multiple(base + body(img, base, first, end).len(), 4);
        let sector = sector_at(img, end - 1);
        assert(sector.len() == 2048);
        crate::ciso::write::lemma_stored_short(sector);
        crate::ciso::write::lemma_body_at(img, base, first, end - 1, end);
        if j + 1 < parts.len() {
            assert(p.is_full(img));
        } else {
            assert(sector =~= img.subrange((n - 1) * 2048, n * 2048));
        }
    }
}

/// One part is named `base.cso`; of several the first is `base.1.cso`, the next `base.2.cso`.
pub proof fn parts_are_numbered_from_one(base: Seq<char>, i: int, total: int)
    requires
        0 <= i < total,
    ensures
        total == 1 ==> output_name(base, i, total) == base + ".cso"@,
        total > 1 ==> output_name(base, i, total) == base + "."@ + decimal((i + 1) as nat)
            + ".cso"@,
{
}

/// What does not begin with a header of sectors, or is too short for its index, is no image. Entry
/// `i` of the index stands in the four bytes from `24 + 4 * i` on.
pub proof fn unfit_images_are_refused(b: Seq<u8>, i: int)
    requires
        parse_first_part(b) is Ok,
        0 <= i < parse_first_part(b)->Ok_0.1.len(),
    ensures
        ({
            let (h, table) = parse_first_part(b)->Ok_0;
            let at = 24 + 4 * i;
            &&& b[0] == 0x43 && b[1] == 0x49 && b[2] == 0x53 && b[3] == 0x4F
            &&& b[4] == 24 && b[5] == 0 && b[6] == 0 && b[7] == 0
            &&& b[16] == 0 && b[17] == 8 && b[18] == 0 && b[19] == 0
            &&& b[20] == 2
            &&& h.alignment == b[21]
            &&& table.len() == h.uncompressed_size / 2048 + 1
            &&& 24 + 4 * table.len() <= b.len()
            &&& table[i].raw == b[at] + b[at + 1] * 0x100 + b[at + 2] * 0x1_0000 + b[at + 3]
                * 0x100_0000
        }),
{
    let (h, table) = parse_first_part(b)->Ok_0;
    let f = b.take(24);
    lemma_four(f, 0);
    lemma_four(f, 4);
    lemma_four(f, 16);
    let n = table.len() as int;
    let all = field(b, 24, n * 4);
    lemma_four(all, i * 4);
}

proof fn lemma_four(b: Seq<u8>, at: int)
    requires
        0 <= at,
        at + 4 <= b.len(),
    ensures
        crate::bytes::le_val(field(b, at, 4)) == b[at] + b[at + 1] * 0x100 + b[at + 2] * 0x1_0000
            + b[at + 3] * 0x100_0000,
{
    let f = field(b, at, 4);
    reveal_with_fuel(crate::bytes::le_val, 5);
    assert(f.drop_first().drop_first().drop_first().drop_first().len() == 0);
    assert(f.drop_first()[0] == f[1]);
    assert(f.drop_first().drop_first()[0] == f[2]);
    assert(f.drop_first().drop_first().drop_first()[0] == f[3]);
}

/// A new part begins with sector 0, and with each sector whose entry points before that of the
/// sector in front of it, and with no other.
pub proof fn parts_begin_where_positions_fall(table: Seq<IndexTableEntry>, k: int, s: int)
    requires
        0 <= s < k <= u64::MAX,
    ensures
        part_starts(table, k).contains(s as u64) <==> s == 0 || table[s].raw % 0x8000_0000
            < table[s - 1].raw % 0x8000_0000,
    decreases k,
{
    let now = part_starts(table, k);
    if k <= 1 {
        assert(now[0] == 0);
    } else {
        let before = part_starts(table, k - 1);
        if s == k - 1 {
            lemma_starts_below(table, k - 1);
            if starts_part(table, k - 1) {
                assert(now.last() == s as u64);
            }
        } else {
            parts_begin_where_positions_fall(table, k - 1, s);
            if starts_part(table, k - 1) {
                if before.contains(s as u64) {
                    let i = choose|i: int| 0 <= i < before.len() && before[i] == s as u64;
                    assert(now[i] == s as u64);
                }
            }
        }
    }
}

proof fn lemma_starts_below(table: Seq<IndexTableEntry>, k: int)
    requires
        1 <= k <= u64::MAX,
    ensures
        forall|i: int| 0 <= i < part_starts(table, k).len() ==> #[trigger] part_starts(table, k)[i]
            < k,
    decreases k,
{
    if k > 1 {
        lemma_starts_below(table, k - 1);
        let now = part_starts(table, k);
        assert forall|i: int| 0 <= i < now.len() implies #[trigger] now[i] < k by {
            if i < part_starts(table, k - 1).len() {
                assert(now[i] == part_starts(table, k - 1)[i]);
            }
        }
    }
}

/// A sector is what stands in the last part that begins at or before it, from where its entry says
/// up to where the next one says, each in units of two to the alignment: as it is, or, if its
/// entry has the top bit, as the blocks of an LZ4 frame.
pub proof fn sectors_are_read_by_their_entries<S: ByteSource>(c: CisoSource<S>, s: int, j: int)
    requires
        c.wf(),
        0 <= s < c.index_table@.len() - 1,
        c.header.alignment == 2,
        0 <= j < c.part_start_sector@.len(),
        c.part_start_sector@[j] <= s,
        j + 1 < c.part_start_sector@.len() ==> s < c.part_start_sector@[j + 1],
        c.index_table@[s].raw % 0x8000_0000 <= c.index_table@[s + 1].raw % 0x8000_0000,
        4 * (c.index_table@[s + 1].raw % 0x8000_0000) <= c.parts@[j].bytes().len(),
        4 * (c.index_table@[s + 1].raw % 0x8000_0000 - c.index_table@[s].raw % 0x8000_0000)
            <= u32::MAX,
    ensures
        ({
            let at = 4 * (c.index_table@[s].raw % 0x8000_0000);
            let to = 4 * (c.index_table@[s + 1].raw % 0x8000_0000);
            let kept = c.parts@[j].bytes().subrange(at, to);
            let r = c.image_sector(s);
            if c.index_table@[s].raw >= 0x8000_0000 {
                match lz4_frame_decoded(lz4_frame_head() + kept + seq![0u8, 0, 0, 0]) {
                    Some(d) => if d.len() == 2048 {
                        r == Ok::<Seq<u8>, CisoError>(d)
                    } else {
                        r is Err
                    },
                    None => r is Err,
                }
            } else if kept.len() == 2048 {
                r == Ok::<Seq<u8>, CisoError>(kept)
            } else {
                r is Err
            }
        }),
{
    let starts = c.part_start_sector@;
    vstd::arithmetic::power2::lemma2_to64();
    crate::ciso::format::part_starts_ascend(c.index_table@, c.index_table@.len() - 1);
    lemma_part_of(starts, s, j, starts.len() as int);
    let at = 4 * (c.index_table@[s].raw % 0x8000_0000);
    let to = 4 * (c.index_table@[s + 1].raw % 0x8000_0000);
    assert(field(c.parts@[j].bytes(), at, to - at) =~= c.parts@[j].bytes().subrange(at, to));
}

proof fn lemma_part_of(starts: Seq<u64>, s: int, j: int, k: int)
    requires
        crate::ciso::format::ascending(starts),
        0 <= j < k <= starts.len(),
        starts[j] <= s,
        j + 1 < starts.len() ==> s < starts[j + 1],
    ensures
        crate::ciso::read::part_of(starts, s, k) == j,
    decreases k,
{
    if j < k - 1 {
        if j + 1 < k - 1 {
            assert(starts[j + 1] < starts[k - 1]);
        }
        lemma_part_of(starts, s, j, k - 1);
    }
}

/// An image that begins with enough bytes for a header is taken if that says what an image's does
/// and its index fits behind it; and only then. Each refusal names the first of these that does not
/// hold, the version before all others.
pub proof fn fitting_images_are_taken(b: Seq<u8>)
    requires
        24 <= b.len() <= usize::MAX,
    ensures
        ({
            let r = parse_first_part(b);
            let word = b[0] == 0x43 && b[1] == 0x49 && b[2] == 0x53 && b[3] == 0x4F;
            let length = b[4] == 24 && b[5] == 0 && b[6] == 0 && b[7] == 0;
            let sector = b[16] == 0 && b[17] == 8 && b[18] == 0 && b[19] == 0;
            let size = number_at(b, 8) + number_at(b, 12) * 0x1_0000_0000;
            let fits = 24 + 4 * (size / 2048 + 1) <= b.len();
            &&& r is Ok <==> b[20] == 2 && word && length && sector && fits
            &&& r is Ok ==> r->Ok_0.0.uncompressed_size == size
            &&& r == Err::<(CsoFields, Seq<IndexTableEntry>), CisoError>(
                CisoError::BadHeader(CsoHeaderError::UnsupportedVersion),
            ) <==> b[20] != 2
            &&& r == Err::<(CsoFields, Seq<IndexTableEntry>), CisoError>(
                CisoError::BadHeader(CsoHeaderError::InvalidHeader),
            ) <==> b[20] == 2 && !(word && length)
            &&& b[20] == 2 && word && length && !sector <==> r is Err && r->Err_0
                is UnsupportedBlockSize
            &&& r == Err::<(CsoFields, Seq<IndexTableEntry>), CisoError>(CisoError::IndexTooLarge)
                <==> b[20] == 2 && word && length && sector && !fits
        }),
{
    let f = b.take(24);
    lemma_four(f, 0);
    lemma_four(f, 4);
    lemma_four(f, 16);
    lemma_eight(f, 8);
}

/// The number in the four bytes from `at` on, least significant first.
pub open spec fn number_at(b: Seq<u8>, at: int) -> int {
    b[at] + b[at + 1] * 0x100 + b[at + 2] * 0x1_0000 + b[at + 3] * 0x100_0000
}

proof fn lemma_eight(b: Seq<u8>, at: int)
    requires
        0 <= at,
        at + 8 <= b.len(),
    ensures
        crate::bytes::le_val(field(b, at, 8)) == number_at(b, at) + number_at(b, at + 4)
            * 0x1_0000_0000,
{
    let f = field(b, at, 8);
    let g = f.drop_first().drop_first().drop_first().drop_first();
    lemma_four(b, at + 4);
    assert(g =~= field(b, at + 4, 4));
    reveal_with_fuel(crate::bytes::le_val, 5);
    assert(f.drop_first()[0] == f[1]);
    assert(f.drop_first().drop_first()[0] == f[2]);
    assert(f.drop_first().drop_first().drop_first()[0] == f[3]);
}

/// A sector is refused for what is wrong with it: there is no such sector, the image counts in
/// units of more than 31 bits, its stored bytes lie outside its part, or they are no sector.
pub proof fn unfit_sectors_are_refused<S: ByteSource>(c: CisoSource<S>, s: int)
    requires
        c.wf(),
        0 <= s,
    ensures
        s >= c.index_table@.len() - 1 <==> c.image_sector(s) == Err::<Seq<u8>, CisoError>(
            CisoError::SectorOutOfRange,
        ),
        s < c.index_table@.len() - 1 && c.header.alignment >= 32 <==> c.image_sector(s) == Err::<
            Seq<u8>,
            CisoError,
        >(CisoError::UnsupportedAlignment(c.header.alignment)),
        s < c.index_table@.len() - 1 && c.header.alignment < 32 && c.index_table@[s + 1].raw
            % 0x8000_0000 < c.index_table@[s].raw % 0x8000_0000 ==> c.image_sector(s) == Err::<
            Seq<u8>,
            CisoError,
        >(CisoError::StoredRangeOverrun),
{
}

/// Positions and lengths are counted in units of two to the alignment.
pub proof fn positions_are_counted_in_units(e: IndexTableEntry, next: IndexTableEntry, a: u8)
    requires
        e.raw % 0x8000_0000 <= next.raw % 0x8000_0000,
        (next.raw % 0x8000_0000 - e.raw % 0x8000_0000) * vstd::arithmetic::power2::pow2(a as nat)
            <= u32::MAX,
    ensures
        stored_at(e, a) == e.raw % 0x8000_0000 * vstd::arithmetic::power2::pow2(a as nat),
        stored_len(e, next, a) == (next.raw % 0x8000_0000 - e.raw % 0x8000_0000)
            * vstd::arithmetic::power2::pow2(a as nat),
{
    let p = vstd::arithmetic::power2::pow2(a as nat);
    let d = next.raw % 0x8000_0000 - e.raw % 0x8000_0000;
    assert(d * p >= 0) by (nonlinear_arith)
        requires
            d >= 0,
            p >= 0,
    ;
}

/// A call that sizes takes in 256 sectors, or those that are left, and the last one is done.
pub proof fn sectors_are_sized_in_batches<S: ByteSource>(
    a: CisoSession<S>,
    b: CisoSession<S>,
    r: Result<bool, CisoWriteError>,
)
    requires
        crate::ciso::write::hash_step(a, b, r),
        !a.sizing_done,
        r is Ok,
    ensures
        b.total_data_sectors == a.total_data_sectors,
        b.sizing_next_sector == a.sizing_next_sector + 256 || b.sizing_next_sector
            == a.total_data_sectors,
        b.sizing_next_sector <= a.sizing_next_sector + 256,
        r->Ok_0 <==> b.sizing_next_sector == a.total_data_sectors,
        crate::ciso::format::SIZING_BATCH_SECTORS == 256,
        crate::ciso::format::SECTOR_SIZE == 2048,
{
}

} // verus!
