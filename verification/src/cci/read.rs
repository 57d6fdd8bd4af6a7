//! Reading `.cci` parts as one image.
use crate::bytes::{field, get_le, le_val};
use crate::cci::format::{header_of, CciHeader, BLOCK_SIZE, INDEX_ALIGNMENT, SECTOR_SIZE, VERSION};
use crate::lz4::{lz4_decoded, lz4_decompress};
use crate::source::{ByteSource, ImageSource, ReadError};
use vstd::prelude::*;

verus! {

/// Why an image cannot be read.
#[derive(Clone, Copy, Debug, PartialEq, Eq, Structural)]
pub enum CciError {
    NoParts,
    BadHeader,
    UnexpectedFields,
    IndexOffsetOutOfRange,
    RaggedIndex,
    IndexTooLarge,
    PositionsDecrease,
    IndexEndMismatch,
    SizeMismatch,
    TooManySectors,
    SectorOutOfRange,
    SlotTooLarge,
    EmptySlot,
    PaddingPastSlot,
    BadBlock,
    Read(ReadError),
}

impl CciError {
    pub open spec fn text(self) -> Seq<char> {
        match self {
            CciError::NoParts => "cci: expected at least 1 part, got 0"@,
            CciError::BadHeader => "cci: bad magic or header in part"@,
            CciError::UnexpectedFields => "cci: unexpected header fields in part"@,
            CciError::IndexOffsetOutOfRange => "cci: index_offset out of range in part"@,
            CciError::RaggedIndex => "cci: index table isn't a whole number of u32 entries"@,
            CciError::IndexTooLarge => "cci: index table too large for this platform"@,
            CciError::PositionsDecrease => "cci: index positions are not non-decreasing"@,
            CciError::IndexEndMismatch => "cci: index doesn't end at its own index_offset"@,
            CciError::SizeMismatch => "cci: uncompressed size doesn't match the index"@,
            CciError::TooManySectors => "cci: too many sectors"@,
            CciError::SectorOutOfRange => "cci: sector out of range"@,
            CciError::SlotTooLarge => "cci: compressed size too large for this platform"@,
            CciError::EmptySlot => "cci: sector has an empty slot (0 bytes)"@,
            CciError::PaddingPastSlot => "cci: sector padding_len exceeds its own slot"@,
            CciError::BadBlock => "cci: LZ4 block decompress failed for sector"@,
            CciError::Read(_) => "cci: read failed"@,
        }
    }

    pub fn message(&self) -> (r: &'static str)
        ensures
            r@ == self.text(),
    {
        match *self {
            CciError::NoParts => "cci: expected at least 1 part, got 0",
            CciError::BadHeader => "cci: bad magic or header in part",
            CciError::UnexpectedFields => "cci: unexpected header fields in part",
            CciError::IndexOffsetOutOfRange => "cci: index_offset out of range in part",
            CciError::RaggedIndex => "cci: index table isn't a whole number of u32 entries",
            CciError::IndexTooLarge => "cci: index table too large for this platform",
            CciError::PositionsDecrease => "cci: index positions are not non-decreasing",
            CciError::IndexEndMismatch => "cci: index doesn't end at its own index_offset",
            CciError::SizeMismatch => "cci: uncompressed size doesn't match the index",
            CciError::TooManySectors => "cci: too many sectors",
            CciError::SectorOutOfRange => "cci: sector out of range",
            CciError::SlotTooLarge => "cci: compressed size too large for this platform",
            CciError::EmptySlot => "cci: sector has an empty slot (0 bytes)",
            CciError::PaddingPastSlot => "cci: sector padding_len exceeds its own slot",
            CciError::BadBlock => "cci: LZ4 block decompress failed for sector",
            CciError::Read(_) => "cci: read failed",
        }
    }
}

/// Positions never decrease.
pub open spec fn non_decreasing(positions: Seq<u64>) -> bool {
    forall|i: int, j: int|
        0 <= i <= j < positions.len() ==> #[trigger] positions[i] <= #[trigger] positions[j]
}

/// What holds of a good position table, or what is wrong with one.
pub open spec fn positions_error(positions: Seq<u64>, index_offset: u64) -> Option<CciError> {
    if !non_decreasing(positions) {
        Some(CciError::PositionsDecrease)
    } else if positions.len() == 0 || positions.last() != index_offset {
        Some(CciError::IndexEndMismatch)
    } else {
        None
    }
}

/// Checks that positions never decrease and end where the index begins.
pub fn validate_index_positions(positions: &[u64], index_offset: u64) -> (r: Result<(), CciError>)
    ensures
        match r {
            Ok(_) => positions_error(positions@, index_offset) is None,
            Err(e) => positions_error(positions@, index_offset) == Some(e),
        },
{
    let n: usize = positions.len();
    let mut i: usize = 1;
    while i < n
        invariant
            1 <= i,
            n == positions@.len(),
            n >= 1 ==> i <= n,
            forall|a: int, b: int|
                0 <= a <= b < i && b < n ==> #[trigger] positions@[a] <= #[trigger] positions@[b],
        decreases n - i,
    {
        if positions[i - 1] > positions[i] {
            assert(!(positions@[i - 1] <= positions@[i as int]));
            return Err(CciError::PositionsDecrease);
        }
        assert forall|a: int, b: int| 0 <= a <= b < i + 1 && b < n implies #[trigger] positions@[a]
            <= #[trigger] positions@[b] by {
            if b == i && a < b {
                assert(positions@[a] <= positions@[i - 1]);
            }
        }
        i = i + 1;
    }
    if n == 0 || positions[n - 1] != index_offset {
        return Err(CciError::IndexEndMismatch);
    }
    Ok(())
}

/// The index of one part: where each sector's slot starts and last where the index does, and
/// which slots are compressed.
pub struct PartIndex {
    pub positions: Seq<u64>,
    pub compressed: Seq<bool>,
}

/// The number at entry `i` of an index.
pub open spec fn index_entry(index: Seq<u8>, i: int) -> int {
    le_val(field(index, i * 4, 4)) as int
}

/// The index that a table of little-endian numbers holds: positions in units of four in the low
/// 31 bits, the top bit for compression. The last entry is no sector.
pub open spec fn part_index(index: Seq<u8>) -> PartIndex {
    let n = index.len() / 4;
    PartIndex {
        positions: Seq::new(n, |i: int| (index_entry(index, i) % 0x8000_0000 * 4) as u64),
        compressed: Seq::new((n - 1) as nat, |i: int| index_entry(index, i) >= 0x8000_0000),
    }
}

/// The index of the part with these bytes.
pub open spec fn parse_part(b: Seq<u8>) -> Result<PartIndex, CciError> {
    match header_of(b) {
        None => Err(CciError::BadHeader),
        Some(h) => {
            let index_len = b.len() - h.index_offset;
            let index = part_index(field(b, h.index_offset as int, index_len));
            if h.header_size != 32 || h.block_size != BLOCK_SIZE || h.version != VERSION
                || h.index_alignment != INDEX_ALIGNMENT {
                Err(CciError::UnexpectedFields)
            } else if h.index_offset < 32 || h.index_offset > b.len() {
                Err(CciError::IndexOffsetOutOfRange)
            } else if index_len % 4 != 0 || index_len < 4 {
                Err(CciError::RaggedIndex)
            } else if index_len > usize::MAX {
                Err(CciError::IndexTooLarge)
            } else if positions_error(index.positions, h.index_offset) is Some {
                Err(positions_error(index.positions, h.index_offset)->0)
            } else if (index.positions.len() - 1) * 2048 != h.uncompressed_size {
                Err(CciError::SizeMismatch)
            } else {
                Ok(index)
            }
        },
    }
}

/// Reads the header and index of one part.
pub fn parse_header_and_index<S: ByteSource>(source: &mut S) -> (r: Result<
    (Vec<u64>, Vec<bool>),
    CciError,
>)
    requires
        old(source).valid(),
    ensures
        final(source).valid(),
        final(source).bytes() == old(source).bytes(),
        final(source).reliable() == old(source).reliable(),
        match r {
            Ok((positions, compressed)) => parse_part(old(source).bytes()) == Ok::<
                PartIndex,
                CciError,
            >(PartIndex { positions: positions@, compressed: compressed@ }),
            Err(e) => (e is Read && !old(source).reliable()) || parse_part(old(source).bytes())
                == Err::<PartIndex, CciError>(e),
        },
{
    let ghost b = source.bytes();
    let part_size: u64 = source.size();
    if part_size < 32 {
        return Err(CciError::BadHeader);
    }
    let head = match source.read_at(0, 32) {
        Ok(h) => h,
        Err(e) => {
            return Err(CciError::Read(e));
        },
    };
    proof {
        assert(field(head@, 0, 4) =~= field(b, 0, 4));
        assert(field(head@, 4, 4) =~= field(b, 4, 4));
        assert(field(head@, 8, 8) =~= field(b, 8, 8));
        assert(field(head@, 16, 8) =~= field(b, 16, 8));
        assert(field(head@, 24, 4) =~= field(b, 24, 4));
        assert(field(head@, 28, 1) =~= field(b, 28, 1));
        assert(field(head@, 29, 1) =~= field(b, 29, 1));
        assert(header_of(head@) == header_of(b));
    }
    let header = match CciHeader::read(head.as_slice()) {
        Some(h) => h,
        None => {
            return Err(CciError::BadHeader);
        },
    };
    if header.header_size != 32 || header.block_size != BLOCK_SIZE || header.version != VERSION
        || header.index_alignment != INDEX_ALIGNMENT {
        return Err(CciError::UnexpectedFields);
    }
    if header.index_offset < 32 || header.index_offset > part_size {
        return Err(CciError::IndexOffsetOutOfRange);
    }
    let index_len: u64 = part_size - header.index_offset;
    if index_len % 4 != 0 || index_len < 4 {
        return Err(CciError::RaggedIndex);
    }
    if index_len > usize::MAX as u64 {
        return Err(CciError::IndexTooLarge);
    }
    let index = match source.read_at(header.index_offset, index_len as usize) {
        Ok(v) => v,
        Err(e) => {
            return Err(CciError::Read(e));
        },
    };
    let ghost want = part_index(index@);
    assert(index@ == field(b, header.index_offset as int, index_len as int));
    let n: usize = index.len() / 4;
    let mut positions: Vec<u64> = Vec::new();
    let mut compressed: Vec<bool> = Vec::new();
    let mut i: usize = 0;
    proof {
        crate::bytes::lemma_pow256();
    }
    while i < n
        invariant
            i <= n,
            n == index@.len() / 4,
            n >= 1,
            index@.len() <= usize::MAX,
            crate::bytes::pow256(4) == 0x1_0000_0000,
            want == part_index(index@),
            positions@ == want.positions.take(i as int),
            compressed@ == want.compressed.take(
                if i < n {
                    i as int
                } else {
                    n - 1
                },
            ),
        decreases n - i,
    {
        let raw: u64 = get_le(index.as_slice(), i * 4, 4);
        positions.push(raw % 0x8000_0000 * 4);
        if i + 1 < n {
            compressed.push(raw >= 0x8000_0000);
        }
        i = i + 1;
        assert(positions@ =~= want.positions.take(i as int));
        assert(compressed@ =~= want.compressed.take(
            if i < n {
                i as int
            } else {
                n - 1
            },
        ));
    }
    assert(positions@ =~= want.positions);
    assert(compressed@ =~= want.compressed);
    if let Err(e) = validate_index_positions(positions.as_slice(), header.index_offset) {
        return Err(e);
    }
    let size: u64 = header.uncompressed_size;
    if size % SECTOR_SIZE != 0 || size / SECTOR_SIZE != n as u64 - 1 {
        return Err(CciError::SizeMismatch);
    }
    Ok((positions, compressed))
}

/// The sector in a slot. A slot that is not marked compressed and has the size of a sector is
/// the sector; any other starts with the length of its padding.
pub open spec fn slot_sector(s: Seq<u8>, is_compressed: bool) -> Result<Seq<u8>, CciError> {
    if !is_compressed && s.len() == 2048 {
        Ok(s)
    } else if s.len() == 0 {
        Err(CciError::EmptySlot)
    } else if 1 + s[0] > s.len() {
        Err(CciError::PaddingPastSlot)
    } else {
        match lz4_decoded(s.subrange(1, s.len() - s[0]), 2048) {
            Some(d) => if d.len() == 2048 {
                Ok(d)
            } else {
                Err(CciError::BadBlock)
            },
            None => Err(CciError::BadBlock),
        }
    }
}

/// Decodes a slot.
pub fn decode_slot(s: &[u8], is_compressed: bool) -> (r: Result<Vec<u8>, CciError>)
    ensures
        match r {
            Ok(v) => slot_sector(s@, is_compressed) == Ok::<Seq<u8>, CciError>(v@),
            Err(e) => slot_sector(s@, is_compressed) == Err::<Seq<u8>, CciError>(e),
        },
{
    let n: usize = s.len();
    if !is_compressed && n == 2048 {
        let r = crate::bytes::copy_range(s, 0, n);
        assert(r@ =~= s@);
        return Ok(r);
    }
    if n == 0 {
        return Err(CciError::EmptySlot);
    }
    let padding: usize = s[0] as usize;
    if padding > n - 1 {
        return Err(CciError::PaddingPastSlot);
    }
    let block = crate::bytes::copy_range(s, 1, n - padding);
    match lz4_decompress(block.as_slice(), 2048) {
        Some(d) => if d.len() == 2048 {
            Ok(d)
        } else {
            Err(CciError::BadBlock)
        },
        None => Err(CciError::BadBlock),
    }
}

/// A written slot holds its sector.
pub proof fn slot_round_trips(sector: Seq<u8>)
    requires
        sector.len() == 2048,
        lz4_decoded(crate::lz4::lz4_compressed(sector), 2048) == Some(sector),
    ensures
        slot_sector(
            crate::cci::format::slot(sector),
            crate::cci::format::is_kept_compressed(sector),
        ) == Ok::<Seq<u8>, CciError>(sector),
{
    let s = crate::cci::format::slot(sector);
    if crate::cci::format::is_kept_compressed(sector) {
        let c = crate::lz4::lz4_compressed(sector);
        assert(s.subrange(1, s.len() - s[0]) =~= c);
    }
}

/// One part of an image with its index.
pub struct CciFileIndex<S: ByteSource> {
    pub source: S,
    pub positions: Vec<u64>,
    pub compressed: Vec<bool>,
}

impl<S: ByteSource> CciFileIndex<S> {
    /// The index is that of the part's bytes.
    pub open spec fn wf(&self) -> bool {
        &&& self.source.valid()
        &&& parse_part(self.source.bytes()) == Ok::<PartIndex, CciError>(
            PartIndex { positions: self.positions@, compressed: self.compressed@ },
        )
    }
}

/// Sector `k` of a part.
pub open spec fn part_sector(b: Seq<u8>, index: PartIndex, k: int) -> Result<Seq<u8>, CciError> {
    if index.positions[k + 1] - index.positions[k] > usize::MAX {
        Err(CciError::SlotTooLarge)
    } else {
        slot_sector(
            b.subrange(index.positions[k] as int, index.positions[k + 1] as int),
            index.compressed[k],
        )
    }
}

/// How many sectors the first `k` parts hold.
pub open spec fn sectors_before<S: ByteSource>(files: Seq<CciFileIndex<S>>, k: int) -> int
    decreases k,
{
    if k <= 0 {
        0
    } else {
        sectors_before(files, k - 1) + files[k - 1].compressed@.len()
    }
}

proof fn lemma_sectors_agree<S: ByteSource>(
    a: Seq<CciFileIndex<S>>,
    b: Seq<CciFileIndex<S>>,
    k: int,
)
    requires
        k <= a.len(),
        k <= b.len(),
        forall|i: int| 0 <= i < k ==> (#[trigger] a[i]).compressed == b[i].compressed,
    ensures
        sectors_before(a, k) == sectors_before(b, k),
    decreases k,
{
    if k > 0 {
        lemma_sectors_agree(a, b, k - 1);
        assert(a[k - 1].compressed == b[k - 1].compressed);
    }
}

/// The parts of one image, in order.
pub struct CciSource<S: ByteSource> {
    pub files: Vec<CciFileIndex<S>>,
    /// The first sector of each part.
    pub sector_offsets: Vec<u64>,
    pub total: u64,
}

/// `r` is what opening an image of these parts comes to.
pub open spec fn is_opened<S: ByteSource>(
    parts: Vec<S>,
    r: Result<CciSource<S>, CciError>,
) -> bool {
    match r {
        Ok(c) => {
            &&& c.wf()
            &&& c.files@.len() == parts@.len() >= 1
            &&& forall|i: int|
                0 <= i < parts@.len() ==> (#[trigger] c.files@[i]).source.bytes()
                    == parts@[i].bytes() && c.files@[i].source.reliable()
                    == parts@[i].reliable()
        },
        Err(CciError::NoParts) => parts@.len() == 0,
        Err(e) => exists|i: int|
            0 <= i < parts@.len() && #[trigger] fails_at(parts@, i, e),
    }
}

impl<S: ByteSource> CciSource<S> {
    pub open spec fn wf(&self) -> bool {
        &&& self.sector_offsets@.len() == self.files@.len()
        &&& forall|i: int| 0 <= i < self.files@.len() ==> (#[trigger] self.files@[i]).wf()
        &&& forall|i: int|
            0 <= i < self.files@.len() ==> #[trigger] self.sector_offsets@[i] == sectors_before(
                self.files@,
                i,
            )
        &&& self.total == sectors_before(self.files@, self.files@.len() as int)
    }

    /// The last part, among the first `k`, that starts at or before `sector`.
    pub open spec fn part_of(&self, sector: int, k: int) -> int
        decreases k,
    {
        if k <= 1 || sectors_before(self.files@, k - 1) <= sector {
            k - 1
        } else {
            self.part_of(sector, k - 1)
        }
    }

    /// What a sector of the image holds.
    pub open spec fn image_sector(&self, sector: int) -> Result<Seq<u8>, CciError> {
        let i = self.part_of(sector, self.files@.len() as int);
        let f = self.files@[i];
        let k = sector - sectors_before(self.files@, i);
        if k >= f.compressed@.len() {
            Err(CciError::SectorOutOfRange)
        } else {
            part_sector(
                f.source.bytes(),
                PartIndex { positions: f.positions@, compressed: f.compressed@ },
                k,
            )
        }
    }

    /// Every part can be read reliably.
    pub open spec fn all_reliable(&self) -> bool {
        forall|i: int| 0 <= i < self.files@.len() ==> (#[trigger] self.files@[i]).source.reliable()
    }

    /// Takes in the next part.
    fn add_part(&mut self, part: S) -> (r: Result<(), CciError>)
        requires
            old(self).wf(),
            part.valid(),
        ensures
            match r {
                Ok(_) => {
                    &&& final(self).wf()
                    &&& final(self).files@.len() == old(self).files@.len() + 1
                    &&& forall|i: int|
                        0 <= i < old(self).files@.len() ==> #[trigger] final(self).files@[i]
                            == old(self).files@[i]
                    &&& final(self).files@.last().source.bytes() == part.bytes()
                    &&& final(self).files@.last().source.reliable() == part.reliable()
                },
                Err(CciError::TooManySectors) => parse_part(part.bytes()) matches Ok(x) && old(
                    self,
                ).total + x.compressed.len() > u64::MAX,
                Err(e) => (e is Read && !part.reliable()) || parse_part(part.bytes()) == Err::<
                    PartIndex,
                    CciError,
                >(e),
            },
    {
        let mut source = part;
        let (positions, compressed) = match parse_header_and_index(&mut source) {
            Ok(x) => x,
            Err(e) => {
                proof {
                    lemma_no_overflow_in_parse(part.bytes());
                }
                return Err(e);
            },
        };
        let n: u64 = compressed.len() as u64;
        if self.total > 0xFFFF_FFFF_FFFF_FFFF - n {
            return Err(CciError::TooManySectors);
        }
        let ghost before = self.files@;
        self.sector_offsets.push(self.total);
        self.files.push(CciFileIndex { source, positions, compressed });
        self.total = self.total + n;
        proof {
            let k = before.len() as int;
            assert forall|j: int| 0 <= j <= k implies #[trigger] sectors_before(self.files@, j)
                == sectors_before(before, j) by {
                lemma_sectors_agree(self.files@, before, j);
            }
            assert(sectors_before(self.files@, k + 1) == sectors_before(self.files@, k) + n);
        }
        Ok(())
    }

    /// Opens an image made of these parts.
    pub fn open(parts: Vec<S>) -> (r: Result<CciSource<S>, CciError>)
        requires
            forall|i: int| 0 <= i < parts@.len() ==> (#[trigger] parts@[i]).valid(),
        ensures
            is_opened(parts, r),
    {
        if parts.len() == 0 {
            return Err(CciError::NoParts);
        }
        let ghost all = parts@;
        let n: usize = parts.len();
        let mut rest = parts;
        let mut c: CciSource<S> = CciSource {
            files: Vec::new(),
            sector_offsets: Vec::new(),
            total: 0,
        };
        let mut i: usize = 0;
        assert(all.skip(0) =~= all);
        while i < n
            invariant
                i <= n == all.len(),
                parts@ == all,
                rest@ == all.skip(i as int),
                forall|j: int| 0 <= j < all.len() ==> (#[trigger] all[j]).valid(),
                c.wf(),
                c.files@.len() == i,
                forall|j: int|
                    0 <= j < i ==> (#[trigger] c.files@[j]).source.bytes() == all[j].bytes()
                        && c.files@[j].source.reliable() == all[j].reliable(),
            decreases n - i,
        {
            let part = rest.remove(0);
            assert(part == all[i as int]);
            assert(rest@ =~= all.skip(i + 1));
            let ghost before = c;
            match c.add_part(part) {
                Ok(_) => {
                    proof {
                        assert forall|j: int| 0 <= j < i + 1 implies (
                        #[trigger] c.files@[j]).source.bytes() == all[j].bytes()
                            && c.files@[j].source.reliable() == all[j].reliable() by {
                            if j < i {
                                assert(c.files@[j] == before.files@[j]);
                            }
                        }
                    }
                },
                Err(e) => {
                    proof {
                        assert forall|j: int| 0 <= j < i implies parse_part(
                            (#[trigger] all[j]).bytes(),
                        ) is Ok by {
                            assert(before.files@[j].wf());
                        }
                        if e is TooManySectors {
                            lemma_total_is_claimed(before.files@, all, i as int);
                        }
                        assert(fails_at(all, i as int, e));
                    }
                    return Err(e);
                },
            }
            i = i + 1;
        }
        Ok(c)
    }

    /// Reads from part `i`.
    fn read_part(&mut self, i: usize, at: u64, n: usize) -> (r: Result<Vec<u8>, ReadError>)
        requires
            old(self).wf(),
            i < old(self).files@.len(),
        ensures
            final(self).wf(),
            final(self).files@.len() == old(self).files@.len(),
            final(self).total == old(self).total,
            final(self).all_reliable() == old(self).all_reliable(),
            forall|s: int| #[trigger] final(self).image_sector(s) == old(self).image_sector(s),
            match r {
                Ok(v) => at + n <= old(self).files@[i as int].source.bytes().len() && v@ == old(
                    self,
                ).files@[i as int].source.bytes().subrange(at as int, at + n),
                Err(_) => !old(self).all_reliable() || at + n > old(
                    self,
                ).files@[i as int].source.bytes().len(),
            },
    {
        let ghost start = *self;
        assert(start.files@[i as int].wf());
        let r = self.files[i].source.read_at(at, n);
        proof {
            assert forall|j: int| 0 <= j < self.files@.len() implies (
            #[trigger] self.files@[j]).wf() && self.files@[j].compressed
                == start.files@[j].compressed && self.files@[j].positions
                == start.files@[j].positions && self.files@[j].source.bytes()
                == start.files@[j].source.bytes() && self.files@[j].source.reliable()
                == start.files@[j].source.reliable() by {
                assert(start.files@[j].wf());
            }
            assert forall|j: int| 0 <= j <= self.files@.len() implies #[trigger] sectors_before(
                self.files@,
                j,
            ) == sectors_before(start.files@, j) by {
                lemma_sectors_agree(self.files@, start.files@, j);
            }
            assert forall|s: int| #[trigger] self.image_sector(s) == start.image_sector(s) by {
                lemma_same_sector(*self, start, s);
            }
            assert(self.all_reliable() == start.all_reliable()) by {
                assert forall|j: int| 0 <= j < self.files@.len() implies (
                #[trigger] self.files@[j]).source.reliable()
                    == start.files@[j].source.reliable() by {
                }
                assert forall|j: int| 0 <= j < start.files@.len() implies (
                #[trigger] start.files@[j]).source.reliable()
                    == self.files@[j].source.reliable() by {
                }
            }
        }
        r
    }

    /// The part that holds `sector`, and which of its sectors that is.
    pub fn locate(&self, sector: u64) -> (r: Result<(usize, u64), CciError>)
        requires
            self.wf(),
            self.files@.len() >= 1,
        ensures
            ({
                let i = self.part_of(sector as int, self.files@.len() as int);
                let k = sector - sectors_before(self.files@, i);
                match r {
                    Ok((part, within)) => part == i && within == k && k
                        < self.files@[i].compressed@.len() && 0 <= i < self.files@.len(),
                    Err(e) => e is SectorOutOfRange && k >= self.files@[i].compressed@.len(),
                }
            }),
    {
        let mut i: usize = self.files.len() - 1;
        while i > 0 && self.sector_offsets[i] > sector
            invariant
                self.wf(),
                i < self.files@.len(),
                self.part_of(sector as int, self.files@.len() as int) == self.part_of(
                    sector as int,
                    i + 1,
                ),
            decreases i,
        {
            i = i - 1;
        }
        proof {
            assert(self.sector_offsets@[i as int] == sectors_before(self.files@, i as int));
        }
        let within: u64 = sector - self.sector_offsets[i];
        if within < self.files[i].compressed.len() as u64 {
            Ok((i, within))
        } else {
            Err(CciError::SectorOutOfRange)
        }
    }
}

/// The sectors that the first `k` parts claim to hold.
pub open spec fn claimed_sectors<S: ByteSource>(parts: Seq<S>, k: int) -> int
    decreases k,
{
    if k <= 0 {
        0
    } else {
        claimed_sectors(parts, k - 1) + (match parse_part(parts[k - 1].bytes()) {
            Ok(x) => x.compressed.len() as int,
            Err(_) => 0,
        })
    }
}

/// Part `i` is the first that cannot be taken in, for this reason.
pub open spec fn fails_at<S: ByteSource>(parts: Seq<S>, i: int, e: CciError) -> bool {
    &&& forall|j: int| 0 <= j < i ==> parse_part((#[trigger] parts[j]).bytes()) is Ok
    &&& {
        ||| e is Read && !parts[i].reliable()
        ||| e is TooManySectors && claimed_sectors(parts, i + 1) > u64::MAX
        ||| parse_part(parts[i].bytes()) == Err::<PartIndex, CciError>(e)
    }
}

proof fn lemma_no_overflow_in_parse(b: Seq<u8>)
    ensures
        parse_part(b) != Err::<PartIndex, CciError>(CciError::TooManySectors),
        parse_part(b) != Err::<PartIndex, CciError>(CciError::NoParts),
{
}

proof fn lemma_total_is_claimed<S: ByteSource>(
    files: Seq<CciFileIndex<S>>,
    parts: Seq<S>,
    k: int,
)
    requires
        0 <= k <= files.len(),
        k <= parts.len(),
        forall|j: int|
            0 <= j < k ==> (#[trigger] files[j]).wf() && files[j].source.bytes()
                == parts[j].bytes(),
    ensures
        sectors_before(files, k) == claimed_sectors(parts, k),
    decreases k,
{
    if k > 0 {
        lemma_total_is_claimed(files, parts, k - 1);
        assert(files[k - 1].wf());
    }
}

proof fn lemma_index_bounds(b: Seq<u8>)
    ensures
        parse_part(b) matches Ok(x) ==> {
            &&& x.positions.len() == x.compressed.len() + 1
            &&& non_decreasing(x.positions)
            &&& forall|i: int| 0 <= i < x.positions.len() ==> #[trigger] x.positions[i] <= b.len()
        },
{
    if let Ok(x) = parse_part(b) {
        let h = header_of(b)->0;
        assert forall|i: int| 0 <= i < x.positions.len() implies #[trigger] x.positions[i]
            <= b.len() by {
            assert(x.positions[i] <= x.positions[x.positions.len() - 1]);
        }
    }
}

impl<S: ByteSource> ImageSource for CciSource<S> {
    type Failure = CciError;

    open spec fn usable(&self) -> bool {
        self.wf() && self.files@.len() >= 1
    }

    open spec fn sector_count(&self) -> int {
        self.total as int
    }

    open spec fn sector(&self, s: int) -> Result<Seq<u8>, CciError> {
        self.image_sector(s)
    }

    open spec fn excused(&self, e: CciError) -> bool {
        e is Read && !self.all_reliable()
    }

    fn total_sectors(&self) -> (r: u64) {
        self.total
    }

    fn read_sector(&mut self, sector: u64) -> (r: Result<Vec<u8>, CciError>) {
        let (i, within) = match self.locate(sector) {
            Ok(x) => x,
            Err(e) => {
                return Err(e);
            },
        };
        let k: usize = within as usize;
        proof {
            assert(self.files@[i as int].wf());
            lemma_index_bounds(self.files@[i as int].source.bytes());
        }
        let from: u64 = self.files[i].positions[k];
        let to: u64 = self.files[i].positions[k + 1];
        let is_compressed: bool = self.files[i].compressed[k];
        assert(from <= to);
        if to - from > usize::MAX as u64 {
            return Err(CciError::SlotTooLarge);
        }
        match self.read_part(i, from, (to - from) as usize) {
            Ok(v) => decode_slot(v.as_slice(), is_compressed),
            Err(e) => Err(CciError::Read(e)),
        }
    }
}

proof fn lemma_same_sector<S: ByteSource>(a: CciSource<S>, b: CciSource<S>, s: int)
    requires
        a.files@.len() == b.files@.len() >= 1,
        forall|j: int|
            0 <= j < a.files@.len() ==> (#[trigger] a.files@[j]).compressed
                == b.files@[j].compressed && a.files@[j].positions == b.files@[j].positions
                && a.files@[j].source.bytes() == b.files@[j].source.bytes(),
    ensures
        a.image_sector(s) == b.image_sector(s),
{
    lemma_same_part(a, b, s, a.files@.len() as int);
    let i = a.part_of(s, a.files@.len() as int);
    lemma_sectors_agree(a.files@, b.files@, i);
    assert(a.files@[i].compressed == b.files@[i].compressed);
}

proof fn lemma_same_part<S: ByteSource>(a: CciSource<S>, b: CciSource<S>, s: int, k: int)
    requires
        1 <= k <= a.files@.len(),
        a.files@.len() == b.files@.len(),
        forall|j: int|
            0 <= j < a.files@.len() ==> (#[trigger] a.files@[j]).compressed
                == b.files@[j].compressed,
    ensures
        a.part_of(s, k) == b.part_of(s, k),
        0 <= a.part_of(s, k) < k,
    decreases k,
{
    lemma_sectors_agree(a.files@, b.files@, k - 1);
    if k > 1 {
        lemma_same_part(a, b, s, k - 1);
    }
}

} // verus!
