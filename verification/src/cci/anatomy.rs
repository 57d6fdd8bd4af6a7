//! What a written part holds, byte by byte, and what of a part is read.
use crate::bytes::{le_bytes, zeros};
use crate::cci::format::{header_bytes, header_of, output_name, part_header, slot, slot_lengths};
use crate::cci::read::{
    index_entry, parse_part, part_index, part_sector, sectors_before, slot_sector, CciError,
    CciSource, PartIndex,
};
use crate::cci::round_trip::{is_written, lemma_part_end};
use crate::cci::write::{
    entry, header_of_part, index_entries, is_full, lemma_index_entry, lemma_slot_at, lemma_slots,
    lemma_start_bound, part_image, part_start, sector_at, slot_start, slots, stays_below, CciPart,
    CciSession, CciWriteError,
};
use crate::lz4::{lz4_compressed, lz4_decoded};
use crate::source::ByteSource;
use crate::utils::text::decimal;
use vstd::prelude::*;

verus! {

broadcast use crate::bytes::group_fields;

/// A part begins with a header of 32 bytes: the letters `CCIM`, then in little-endian order the
/// header's length, the length of the sectors, where the index stands, the length of a sector, a
/// version and an alignment in one byte each, and two zeros. Behind it stand the slots, and behind
/// those the index, four bytes for each sector and for the end.
pub proof fn part_begins_with_its_header(img: Seq<u8>, first: int, end: int)
    requires
        0 <= first <= end,
        (end - first) * 2048 <= u64::MAX,
        slot_start(img, first, end) <= u64::MAX,
    ensures
        ({
            let b = part_image(img, first, end);
            let index = slot_start(img, first, end);
            &&& slot_start(img, first, first) == 32
            &&& b.len() == index + 4 * (end - first + 1)
            &&& b.subrange(0, 4) == seq![0x43u8, 0x43, 0x49, 0x4D]
            &&& b.subrange(4, 8) == le_bytes(32, 4)
            &&& b.subrange(8, 16) == le_bytes(((end - first) * 2048) as nat, 8)
            &&& b.subrange(16, 24) == le_bytes(index as nat, 8)
            &&& b.subrange(24, 28) == le_bytes(2048, 4)
            &&& b.subrange(28, 32) == seq![1u8, 2, 0, 0]
        }),
{
    let b = part_image(img, first, end);
    let head = header_of_part(img, first, end);
    let size = ((end - first) * 2048) as nat;
    let index = slot_start(img, first, end) as nat;
    lemma_head(size, index);
    assert(head.len() == 32);
    crate::cci::write::lemma_index_len(img, first, end);
    assert(slots(img, first, first) =~= Seq::empty());
    assert(b.subrange(0, 4) =~= head.subrange(0, 4));
    assert(b.subrange(4, 8) =~= head.subrange(4, 8));
    assert(b.subrange(8, 16) =~= head.subrange(8, 16));
    assert(b.subrange(16, 24) =~= head.subrange(16, 24));
    assert(b.subrange(24, 28) =~= head.subrange(24, 28));
    assert(b.subrange(28, 32) =~= head.subrange(28, 32));
}

proof fn lemma_head(size: nat, index: nat)
    requires
        size <= u64::MAX,
        index <= u64::MAX,
    ensures
        ({
            let h = header_bytes(part_header(size as u64, index as u64));
            &&& h.len() == 32
            &&& h.subrange(0, 4) == seq![0x43u8, 0x43, 0x49, 0x4D]
            &&& h.subrange(4, 8) == le_bytes(32, 4)
            &&& h.subrange(8, 16) == le_bytes(size, 8)
            &&& h.subrange(16, 24) == le_bytes(index, 8)
            &&& h.subrange(24, 28) == le_bytes(2048, 4)
            &&& h.subrange(28, 32) == seq![1u8, 2, 0, 0]
        }),
{
    let h = header_bytes(part_header(size as u64, index as u64));
    lemma_small_fields();
    assert(h.subrange(0, 4) =~= crate::bytes::be_bytes(0x4343_494D, 4));
    assert(h.subrange(4, 8) =~= le_bytes(32, 4));
    assert(h.subrange(8, 16) =~= le_bytes(size, 8));
    assert(h.subrange(16, 24) =~= le_bytes(index, 8));
    assert(h.subrange(24, 28) =~= le_bytes(2048, 4));
    assert(h.subrange(28, 32) =~= seq![1u8, 2, 0, 0]);
}

proof fn lemma_small_fields()
    ensures
        crate::bytes::be_bytes(0x4343_494D, 4) == seq![0x43u8, 0x43, 0x49, 0x4D],
        le_bytes(1, 1) == seq![1u8],
        le_bytes(2, 1) == seq![2u8],
        zeros(2) == seq![0u8, 0],
{
    reveal_with_fuel(crate::bytes::be_bytes, 5);
    reveal_with_fuel(le_bytes, 2);
    assert(crate::bytes::be_bytes(0x4343_494D, 4) =~= seq![0x43u8, 0x43, 0x49, 0x4D]);
    assert(le_bytes(1, 1) =~= seq![1u8]);
    assert(le_bytes(2, 1) =~= seq![2u8]);
    assert(zeros(2) =~= seq![0u8, 0]);
}

/// Sector `k` of a part stands in its slot: as its LZ4 block, behind the number of zeros that
/// fill it up to a multiple of four, if the block has fewer than 2040 bytes, else as it is. The
/// slots stand back to back from byte 32 on. The index says of each where it begins, in fours, and
/// with the top bit that it is compressed; its last entry says where the index itself begins.
pub proof fn slots_stand_where_the_index_says(img: Seq<u8>, first: int, end: int, k: int)
    requires
        0 <= first <= k < end,
        end * 2048 <= img.len(),
        end * 2048 <= u64::MAX,
        stays_below(img, first, end),
    ensures
        ({
            let b = part_image(img, first, end);
            let sector = img.subrange(k * 2048, k * 2048 + 2048);
            let block = lz4_compressed(sector);
            let at = slot_start(img, first, k);
            let to = slot_start(img, first, k + 1);
            let index = slot_start(img, first, end);
            let e = index + 4 * (k - first);
            let slot = b.subrange(at, to);
            let pad = to - at - 1 - block.len();
            &&& at % 4 == 0
            &&& 32 <= at < to <= index
            &&& 0 < block.len() < 2040 ==> {
                &&& 0 <= pad < 4
                &&& slot[0] == pad
                &&& slot.subrange(1, block.len() + 1int) == block
                &&& forall|i: int| 1 + block.len() <= i < slot.len() ==> #[trigger] slot[i] == 0
                &&& b.subrange(e, e + 4) == le_bytes((at / 4 + 0x8000_0000) as nat, 4)
            }
            &&& !(0 < block.len() < 2040) ==> {
                &&& slot == sector
                &&& b.subrange(e, e + 4) == le_bytes((at / 4) as nat, 4)
            }
            &&& b.subrange(b.len() - 4, b.len() as int) == le_bytes((index / 4) as nat, 4)
        }),
{
    let b = part_image(img, first, end);
    let sector = sector_at(img, k);
    let block = lz4_compressed(sector);
    let at = slot_start(img, first, k);
    let to = slot_start(img, first, k + 1);
    lemma_pieces(img, first, end, k);
    lemma_slot_shape(sector);
    assert(sector == img.subrange(k * 2048, k * 2048 + 2048));
    assert(to - at == slot(sector).len());
    assert(entry(img, first, k) == (if 0 < block.len() < 2040 {
        at / 4 + 0x8000_0000
    } else {
        at / 4
    }));
}

/// Where the slot of a sector and its index entry stand in a part.
proof fn lemma_pieces(img: Seq<u8>, first: int, end: int, k: int)
    requires
        0 <= first <= k < end,
        end * 2048 <= img.len(),
        end * 2048 <= u64::MAX,
        stays_below(img, first, end),
    ensures
        ({
            let b = part_image(img, first, end);
            let at = slot_start(img, first, k);
            let to = slot_start(img, first, k + 1);
            let index = slot_start(img, first, end);
            let e = index + 4 * (k - first);
            &&& at % 4 == 0
            &&& 32 <= at < to <= index
            &&& to - at == slot(sector_at(img, k)).len()
            &&& b.subrange(at, to) == slot(sector_at(img, k))
            &&& b.subrange(e, e + 4) == le_bytes(entry(img, first, k) as nat, 4)
            &&& b.subrange(b.len() - 4, b.len() as int) == le_bytes((index / 4) as nat, 4)
        }),
{
    let b = part_image(img, first, end);
    let sector = sector_at(img, k);
    let at = slot_start(img, first, k);
    let to = slot_start(img, first, k + 1);
    let index = slot_start(img, first, end);
    let e = index + 4 * (k - first);
    assert(slot_start(img, first, k) <= 0xFF00_0000);
    lemma_start_bound(img, first, end, end);
    lemma_slots(img, first, k, end);
    lemma_slot_at(img, first, k, end);
    lemma_index_entry(img, first, k, end);
    lemma_head(((end - first) * 2048) as nat, index as nat);
    slot_lengths(sector);
    let all = slots(img, first, end);
    assert(b.subrange(at, to) =~= all.subrange(at - 32, to - 32));
    let entries = index_entries(img, first, end);
    assert(b.subrange(e, e + 4) =~= entries.subrange((k - first) * 4, (k - first) * 4 + 4));
    assert(b.subrange(b.len() - 4, b.len() as int) =~= le_bytes((index / 4) as nat, 4));
}

/// What the slot of a sector holds.
proof fn lemma_slot_shape(sector: Seq<u8>)
    requires
        sector.len() == 2048,
    ensures
        ({
            let block = lz4_compressed(sector);
            let stored = slot(sector);
            let pad = stored.len() - 1 - block.len();
            &&& 0 < block.len() < 2040 ==> {
                &&& 0 <= pad < 4
                &&& stored[0] == pad
                &&& stored.subrange(1, block.len() + 1int) == block
                &&& forall|i: int|
                    1 + block.len() <= i < stored.len() ==> #[trigger] stored[i] == 0
            }
            &&& !(0 < block.len() < 2040) ==> stored == sector
        }),
{
    let block = lz4_compressed(sector);
    let stored = slot(sector);
    slot_lengths(sector);
    if 0 < block.len() < 2040 {
        let pad = stored.len() - 1 - block.len();
        crate::bytes::rounding_goes_up_to_the_next_multiple((block.len() + 1) as int, 4);
        assert(stored =~= seq![pad as u8] + block + zeros(pad as nat));
        assert(stored.subrange(1, block.len() + 1int) =~= block);
    }
}

/// A part takes in no sector once its slots have passed byte 0xFF00_0000, and every part but the
/// last has passed it. Each part begins where the one before it ends, the first with sector 0, and
/// the last ends with the image.
pub proof fn parts_end_behind_the_split_point(img: Seq<u8>, n: int, parts: Seq<CciPart>, j: int)
    requires
        is_written(img, n, parts),
        0 <= j < parts.len(),
    ensures
        parts[0].first_sector == 0,
        j + 1 < parts.len() ==> parts[j + 1].first_sector == parts[j].first_sector
            + parts[j].sector_count,
        j + 1 == parts.len() ==> parts[j].first_sector + parts[j].sector_count == n,
        j + 1 < parts.len() ==> slot_start(
            img,
            parts[j].first_sector as int,
            parts[j].first_sector + parts[j].sector_count,
        ) > 0xFF00_0000,
        parts[j].sector_count > 0 ==> slot_start(
            img,
            parts[j].first_sector as int,
            parts[j].first_sector + parts[j].sector_count - 1,
        ) <= 0xFF00_0000,
{
    let p = parts[j];
    assert(part_start(parts, 0) == parts[0].first_sector);
    assert(p.matches(img));
    lemma_part_end(img, n, parts, j);
    if j + 1 < parts.len() {
        assert(is_full(img, p.first_sector as int, p.end()));
    }
    if p.sector_count > 0 {
        assert(stays_below(img, p.first_sector as int, p.end()));
        assert(slot_start(img, p.first_sector as int, p.end() - 1) <= 0xFF00_0000);
    }
}

/// One part is named `base.cci`; of several the first is `base.1.cci`, the next `base.2.cci`.
pub proof fn parts_are_numbered_from_one(base: Seq<char>, i: int, total: int)
    requires
        0 <= i < total,
    ensures
        total == 1 ==> output_name(base, i, total) == base + ".cci"@,
        total > 1 ==> output_name(base, i, total) == base + "."@ + decimal((i + 1) as nat)
            + ".cci"@,
{
}

/// What has no part's header, or has an index that does not lead through it, is no part.
pub proof fn unfit_parts_are_refused(b: Seq<u8>)
    requires
        parse_part(b) is Ok,
    ensures
        b.len() >= 36,
        b[0] == 0x43 && b[1] == 0x43 && b[2] == 0x49 && b[3] == 0x4D,
        header_of(b) matches Some(h) && {
            &&& h.header_size == 32
            &&& h.block_size == 2048
            &&& h.version == 1
            &&& h.index_alignment == 2
            &&& 32 <= h.index_offset
            &&& h.index_offset + 4 <= b.len()
            &&& (b.len() - h.index_offset) % 4 == 0
            &&& h.uncompressed_size == ((b.len() - h.index_offset) / 4 - 1) * 2048
        },
{
    let f = b.subrange(0, 4);
    reveal_with_fuel(crate::bytes::be_val, 5);
    let g = crate::bytes::field(b, 0, 4);
    assert(g.drop_last().drop_last().drop_last().drop_last().len() == 0);
    assert(g.last() == b[3] && g.drop_last().last() == b[2]);
    assert(g.drop_last().drop_last().last() == b[1]);
    assert(g.drop_last().drop_last().drop_last().last() == b[0]);
    let h = header_of(b)->Some_0;
    let x = part_index(crate::bytes::field(b, h.index_offset as int, b.len() - h.index_offset));
    assert(x.positions.len() == (b.len() - h.index_offset) / 4);
}

/// Entry `i` of an index says in its low 31 bits where slot `i` begins, in fours, and with its top
/// bit that it is compressed. The positions never go back, and the last is that of the index.
pub proof fn index_is_read_in_fours(b: Seq<u8>, i: int)
    requires
        parse_part(b) is Ok,
        0 <= i < parse_part(b)->Ok_0.positions.len(),
    ensures
        ({
            let x = parse_part(b)->Ok_0;
            let at = header_of(b)->Some_0.index_offset + 4 * i;
            let v = b[at] + b[at + 1] * 0x100 + b[at + 2] * 0x1_0000 + b[at + 3] * 0x100_0000;
            &&& at + 4 <= b.len()
            &&& x.positions[i] == v % 0x8000_0000 * 4
            &&& i + 1 < x.positions.len() ==> x.compressed[i] == (v >= 0x8000_0000)
            &&& i + 1 < x.positions.len() ==> x.positions[i] <= x.positions[i + 1]
            &&& x.positions.last() == header_of(b)->Some_0.index_offset
            &&& x.compressed.len() == x.positions.len() - 1
        }),
{
    let h = header_of(b)->Some_0;
    let table = crate::bytes::field(b, h.index_offset as int, b.len() - h.index_offset);
    let x = part_index(table);
    let at = h.index_offset + 4 * i;
    let f = crate::bytes::field(table, i * 4, 4);
    assert(f[0] == b[at] && f[1] == b[at + 1] && f[2] == b[at + 2] && f[3] == b[at + 3]);
    reveal_with_fuel(crate::bytes::le_val, 5);
    assert(f.drop_first().drop_first().drop_first().drop_first().len() == 0);
    assert(f.drop_first()[0] == f[1]);
    assert(f.drop_first().drop_first()[0] == f[2]);
    assert(f.drop_first().drop_first().drop_first()[0] == f[3]);
    assert(index_entry(table, i) == crate::bytes::le_val(f));
}

/// A sector is what stands in its slot: a slot of 2048 bytes that is not marked as compressed is
/// the sector; any other holds an LZ4 block between a byte that counts the zeros behind it and
/// those zeros, and the block decodes to the sector.
pub proof fn sectors_are_read_from_their_slots(b: Seq<u8>, x: PartIndex, k: int)
    requires
        parse_part(b) == Ok::<PartIndex, CciError>(x),
        0 <= k < x.compressed.len(),
        x.positions[k + 1] - x.positions[k] <= usize::MAX,
    ensures
        ({
            let s = b.subrange(x.positions[k] as int, x.positions[k + 1] as int);
            let r = part_sector(b, x, k);
            &&& !x.compressed[k] && s.len() == 2048 ==> r == Ok::<Seq<u8>, CciError>(s)
            &&& x.compressed[k] || s.len() != 2048 ==> match r {
                Ok(d) => s.len() > s[0] && d.len() == 2048 && lz4_decoded(
                    s.subrange(1, s.len() - s[0]),
                    2048,
                ) == Some(d),
                Err(_) => s.len() <= s[0] || s.len() == 0 || lz4_decoded(
                    s.subrange(1, s.len() - s[0]),
                    2048,
                ) is None || lz4_decoded(s.subrange(1, s.len() - s[0]), 2048)->Some_0.len()
                    != 2048,
            }
        }),
{
}

/// The sectors of an image are counted through its parts: sector `k` of part `i` comes behind all
/// sectors of the parts before it.
pub proof fn sectors_are_counted_through_the_parts<S: ByteSource>(
    c: CciSource<S>,
    i: int,
    k: int,
)
    requires
        c.wf(),
        0 <= i < c.files@.len(),
        0 <= k < c.files@[i].compressed@.len(),
    ensures
        sectors_before(c.files@, 0) == 0,
        sectors_before(c.files@, i + 1) == sectors_before(c.files@, i)
            + c.files@[i].compressed@.len(),
        c.total == sectors_before(c.files@, c.files@.len() as int),
        c.image_sector(sectors_before(c.files@, i) + k) == part_sector(
            c.files@[i].source.bytes(),
            PartIndex { positions: c.files@[i].positions@, compressed: c.files@[i].compressed@ },
            k,
        ),
{
    let n = c.files@.len() as int;
    let s = sectors_before(c.files@, i) + k;
    lemma_part_of(c, i, k, n);
}

proof fn lemma_before_grows<S: ByteSource>(c: CciSource<S>, i: int, j: int)
    requires
        0 <= i <= j,
    ensures
        sectors_before(c.files@, i) <= sectors_before(c.files@, j),
    decreases j,
{
    if i < j {
        lemma_before_grows(c, i, j - 1);
    }
}

proof fn lemma_part_of<S: ByteSource>(c: CciSource<S>, i: int, k: int, n: int)
    requires
        0 <= i < n <= c.files@.len(),
        0 <= k < c.files@[i].compressed@.len(),
    ensures
        c.part_of(sectors_before(c.files@, i) + k, n) == i,
    decreases n,
{
    if i < n - 1 {
        lemma_before_grows(c, i + 1, n - 1);
        lemma_part_of(c, i, k, n - 1);
    }
}

/// The number in the four bytes from `at` on, least significant first.
pub open spec fn number_at(b: Seq<u8>, at: int) -> int {
    b[at] + b[at + 1] * 0x100 + b[at + 2] * 0x1_0000 + b[at + 3] * 0x100_0000
}

/// Where entry `i` of the index at `index` says that its slot begins.
pub open spec fn position_at(b: Seq<u8>, index: int, i: int) -> int {
    number_at(b, index + 4 * i) % 0x8000_0000 * 4
}

proof fn lemma_position(b: Seq<u8>, index: int, i: int)
    requires
        0 <= index,
        0 <= i,
        index + 4 * i + 4 <= b.len(),
    ensures
        part_index(crate::bytes::field(b, index, b.len() - index)).positions[i] == position_at(
            b,
            index,
            i,
        ),
{
    let table = crate::bytes::field(b, index, b.len() - index);
    let at = index + 4 * i;
    let f = crate::bytes::field(table, i * 4, 4);
    assert(f[0] == b[at] && f[1] == b[at + 1] && f[2] == b[at + 2] && f[3] == b[at + 3]);
    reveal_with_fuel(crate::bytes::le_val, 5);
    assert(f.drop_first().drop_first().drop_first().drop_first().len() == 0);
    assert(f.drop_first()[0] == f[1]);
    assert(f.drop_first().drop_first()[0] == f[2]);
    assert(f.drop_first().drop_first().drop_first()[0] == f[3]);
    assert(index_entry(table, i) == crate::bytes::le_val(f));
}

/// A part is taken if its header says what a part's does, its index stands behind it and has a
/// whole number of entries, the positions in it never go back and end with that of the index, and
/// it has as many sectors as the header says; and only then. Each refusal names the first of these
/// that does not hold.
pub proof fn fitting_parts_are_taken(b: Seq<u8>)
    requires
        b.len() >= 32,
        b[0] == 0x43 && b[1] == 0x43 && b[2] == 0x49 && b[3] == 0x4D,
        b.len() <= usize::MAX,
    ensures
        header_of(b) matches Some(h) && {
            let index = h.index_offset as int;
            let n = (b.len() - index) / 4;
            let fields = h.header_size == 32 && h.block_size == 2048 && h.version == 1
                && h.index_alignment == 2;
            let within = 32 <= index <= b.len();
            let whole = (b.len() - index) % 4 == 0 && n >= 1;
            let ordered = forall|i: int, j: int|
                0 <= i <= j < n ==> #[trigger] position_at(b, index, i)
                    <= #[trigger] position_at(b, index, j);
            let ends = position_at(b, index, n - 1) == index;
            let counted = h.uncompressed_size == (n - 1) * 2048;
            &&& parse_part(b) is Ok <==> fields && within && whole && ordered && ends && counted
            &&& parse_part(b) == Err::<PartIndex, CciError>(CciError::UnexpectedFields) <==> !fields
            &&& parse_part(b) == Err::<PartIndex, CciError>(CciError::IndexOffsetOutOfRange)
                <==> fields && !within
            &&& parse_part(b) == Err::<PartIndex, CciError>(CciError::RaggedIndex) <==> fields
                && within && !whole
            &&& parse_part(b) == Err::<PartIndex, CciError>(CciError::PositionsDecrease) <==> fields
                && within && whole && !ordered
            &&& parse_part(b) == Err::<PartIndex, CciError>(CciError::IndexEndMismatch) <==> fields
                && within && whole && ordered && !ends
            &&& parse_part(b) == Err::<PartIndex, CciError>(CciError::SizeMismatch) <==> fields
                && within && whole && ordered && ends && !counted
        },
{
    let g = crate::bytes::field(b, 0, 4);
    lemma_word(g);
    let h = header_of(b)->Some_0;
    let index = h.index_offset as int;
    let n = (b.len() - index) / 4;
    if 32 <= index <= b.len() && n >= 1 {
        let x = part_index(crate::bytes::field(b, index, b.len() - index));
        assert(x.positions.len() == n);
        assert forall|i: int| 0 <= i < n implies #[trigger] x.positions[i] == position_at(
            b,
            index,
            i,
        ) by {
            lemma_position(b, index, i);
        }
        assert(x.positions.last() == position_at(b, index, n - 1));
        if crate::cci::read::non_decreasing(x.positions) {
            assert forall|i: int, j: int| 0 <= i <= j < n implies #[trigger] position_at(
                b,
                index,
                i,
            ) <= #[trigger] position_at(b, index, j) by {
                assert(x.positions[i] <= x.positions[j]);
            }
        }
        if forall|i: int, j: int|
            0 <= i <= j < n ==> #[trigger] position_at(b, index, i) <= #[trigger] position_at(
                b,
                index,
                j,
            ) {
            assert forall|i: int, j: int| 0 <= i <= j < n implies #[trigger] x.positions[i]
                <= #[trigger] x.positions[j] by {
                assert(position_at(b, index, i) <= position_at(b, index, j));
            }
            assert(crate::cci::read::non_decreasing(x.positions));
        }
    }
}

proof fn lemma_word(g: Seq<u8>)
    requires
        g.len() == 4,
        g[0] == 0x43 && g[1] == 0x43 && g[2] == 0x49 && g[3] == 0x4D,
    ensures
        crate::bytes::be_val(g) == 0x4343_494D,
{
    reveal_with_fuel(crate::bytes::be_val, 5);
    assert(g.drop_last().drop_last().drop_last().drop_last().len() == 0);
    assert(g.last() == g[3] && g.drop_last().last() == g[2]);
    assert(g.drop_last().drop_last().last() == g[1]);
    assert(g.drop_last().drop_last().drop_last().last() == g[0]);
}

/// A slot that cannot be decoded is refused for what is wrong with it: it is empty, it has less
/// than the zeros that it counts, or its block does not give a sector.
pub proof fn unfit_slots_are_refused(s: Seq<u8>, compressed: bool)
    requires
        compressed || s.len() != 2048,
    ensures
        s.len() == 0 <==> slot_sector(s, compressed) == Err::<Seq<u8>, CciError>(
            CciError::EmptySlot,
        ),
        0 < s.len() <= s[0] <==> slot_sector(s, compressed) == Err::<Seq<u8>, CciError>(
            CciError::PaddingPastSlot,
        ),
        s.len() > 0 && s.len() > s[0] && (lz4_decoded(s.subrange(1, s.len() - s[0]), 2048) is None
            || lz4_decoded(s.subrange(1, s.len() - s[0]), 2048)->0.len() != 2048) <==> slot_sector(
            s,
            compressed,
        ) == Err::<Seq<u8>, CciError>(CciError::BadBlock),
{
}

/// A call that sizes takes in 256 sectors, or those that are left, and the last one is done.
pub proof fn sectors_are_sized_in_batches<S: ByteSource>(
    a: CciSession<S>,
    b: CciSession<S>,
    r: Result<bool, CciWriteError>,
)
    requires
        crate::cci::write::hash_step(a, b, r),
        !a.sizing_done,
        r is Ok,
    ensures
        b.total_data_sectors == a.total_data_sectors,
        b.sizing_next_sector == a.sizing_next_sector + 256 || b.sizing_next_sector
            == a.total_data_sectors,
        b.sizing_next_sector <= a.sizing_next_sector + 256,
        r->Ok_0 <==> b.sizing_next_sector == a.total_data_sectors,
        crate::cci::format::SIZING_BATCH_SECTORS == 256,
        crate::cci::format::SECTOR_SIZE == 2048,
{
}

} // verus!
