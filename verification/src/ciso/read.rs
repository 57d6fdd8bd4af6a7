//! Reading `.cso` parts as one image.
use crate::bytes::{field, get_le, le_val};
use crate::ciso::format::{
    ascending, cso_deserialize, cso_header_of, decode_lz4_sector, framed, locate_part,
    part_boundaries, part_starts, part_starts_ascend, CsoFields, CsoHeaderError, IndexTableEntry,
    HEADER_SIZE, SECTOR_SIZE,
};
use crate::lz4::lz4_frame_decoded;
use crate::source::{ByteSource, ImageSource, ReadError};
use vstd::arithmetic::power2::*;
use vstd::prelude::*;

verus! {

/// Why an image cannot be read.
#[derive(Clone, Copy, Debug, PartialEq, Eq, Structural)]
pub enum CisoError {
    NoParts,
    MissingParts,
    BadHeader(CsoHeaderError),
    UnsupportedBlockSize(u32),
    /// The index does not fit the part.
    IndexTooLarge,
    /// The index does not fit memory.
    IndexUnaddressable,
    SectorOutOfRange,
    UnsupportedAlignment(u8),
    /// A sector's stored bytes lie outside its part.
    StoredRangeOverrun,
    BadStoredLength,
    BadBlock,
    Read(ReadError),
}

impl CisoError {
    pub open spec fn text(self) -> Seq<char> {
        match self {
            CisoError::NoParts => "ciso: at least one part is required"@,
            CisoError::MissingParts => "ciso: index table implies more parts than were provided"@,
            CisoError::BadHeader(_) => "ciso: invalid header"@,
            CisoError::UnsupportedBlockSize(_) => "ciso: unsupported block size"@,
            CisoError::IndexTooLarge => "ciso: header claims a larger index table than part 0 has"@,
            CisoError::IndexUnaddressable => "ciso: index table length does not fit in usize"@,
            CisoError::SectorOutOfRange => "ciso: sector out of range"@,
            CisoError::UnsupportedAlignment(_) => "ciso: unsupported alignment"@,
            CisoError::StoredRangeOverrun => "ciso: stored range exceeds part size"@,
            CisoError::BadStoredLength =>
                "ciso: uncompressed sector has unexpected stored length"@,
            CisoError::BadBlock => "ciso: lz4 frame decode failed"@,
            CisoError::Read(_) => "ciso: read failed"@,
        }
    }

    pub fn message(&self) -> (r: &'static str)
        ensures
            r@ == self.text(),
    {
        match *self {
            CisoError::NoParts => "ciso: at least one part is required",
            CisoError::MissingParts => "ciso: index table implies more parts than were provided",
            CisoError::BadHeader(_) => "ciso: invalid header",
            CisoError::UnsupportedBlockSize(_) => "ciso: unsupported block size",
            CisoError::IndexTooLarge => "ciso: header claims a larger index table than part 0 has",
            CisoError::IndexUnaddressable => "ciso: index table length does not fit in usize",
            CisoError::SectorOutOfRange => "ciso: sector out of range",
            CisoError::UnsupportedAlignment(_) => "ciso: unsupported alignment",
            CisoError::StoredRangeOverrun => "ciso: stored range exceeds part size",
            CisoError::BadStoredLength => "ciso: uncompressed sector has unexpected stored length",
            CisoError::BadBlock => "ciso: lz4 frame decode failed",
            CisoError::Read(_) => "ciso: read failed",
        }
    }
}

/// The size of an index of this many entries, if the first part has that much after its header.
pub fn validate_index_table_size(index_table_len: usize, header_bytes: u64, part0_size: u64) -> (r:
    Result<u64, CisoError>)
    ensures
        r == (if index_table_len * 4 <= (if part0_size < header_bytes {
            0
        } else {
            part0_size - header_bytes
        }) {
            Ok((index_table_len * 4) as u64)
        } else {
            Err(CisoError::IndexTooLarge)
        }),
{
    let available: u64 = if part0_size < header_bytes {
        0
    } else {
        part0_size - header_bytes
    };
    if index_table_len as u64 <= available / 4 {
        Ok(index_table_len as u64 * 4)
    } else {
        Err(CisoError::IndexTooLarge)
    }
}

/// Checks that stored bytes lie within their part.
pub fn validate_stored_range(sector_pos: u64, data_len: u32, part_size: u64) -> (r: Result<
    (),
    CisoError,
>)
    ensures
        r == (if sector_pos + data_len <= part_size {
            Ok(())
        } else {
            Err(CisoError::StoredRangeOverrun)
        }),
{
    if sector_pos <= part_size && data_len as u64 <= part_size - sector_pos {
        Ok(())
    } else {
        Err(CisoError::StoredRangeOverrun)
    }
}

/// The entries of an index of `n` entries.
pub open spec fn table_of(b: Seq<u8>, n: int) -> Seq<IndexTableEntry> {
    Seq::new(n as nat, |i: int| IndexTableEntry { raw: le_val(field(b, i * 4, 4)) as u32 })
}

/// How many entries the index of an image of this size has.
pub open spec fn entries_for(uncompressed_size: int) -> int {
    uncompressed_size / 2048 + 1
}

/// Header and index of the first part.
pub open spec fn parse_first_part(b: Seq<u8>) -> Result<
    (CsoFields, Seq<IndexTableEntry>),
    CisoError,
> {
    if b.len() < 24 {
        Err(CisoError::Read(ReadError))
    } else {
        match cso_header_of(b.take(24)) {
            Err(e) => Err(CisoError::BadHeader(e)),
            Ok(h) => {
                let n = entries_for(h.uncompressed_size as int);
                if h.block_size != 2048 {
                    Err(CisoError::UnsupportedBlockSize(h.block_size))
                } else if n * 4 > b.len() - 24 {
                    Err(CisoError::IndexTooLarge)
                } else if n * 4 > usize::MAX {
                    Err(CisoError::IndexUnaddressable)
                } else {
                    Ok((h, table_of(field(b, 24, n * 4), n)))
                }
            },
        }
    }
}

/// Reads header and index of the first part.
pub fn parse_header_and_index<S: ByteSource>(source: &mut S) -> (r: Result<
    (CsoFields, Vec<IndexTableEntry>),
    CisoError,
>)
    requires
        old(source).valid(),
    ensures
        final(source).valid(),
        final(source).bytes() == old(source).bytes(),
        final(source).reliable() == old(source).reliable(),
        match r {
            Ok((h, table)) => parse_first_part(old(source).bytes()) == Ok::<
                (CsoFields, Seq<IndexTableEntry>),
                CisoError,
            >((h, table@)),
            Err(e) => (e is Read && !old(source).reliable()) || parse_first_part(
                old(source).bytes(),
            ) == Err::<(CsoFields, Seq<IndexTableEntry>), CisoError>(e),
        },
{
    let ghost b = source.bytes();
    let size: u64 = source.size();
    let head = match source.read_at(0, 24) {
        Ok(h) => h,
        Err(e) => {
            assert(e == ReadError);
            return Err(CisoError::Read(e));
        },
    };
    let raw: [u8; 24] = crate::bytes::take_array(head.as_slice(), 0);
    assert(raw@ =~= b.take(24));
    let h = match cso_deserialize(&raw) {
        Ok(h) => h,
        Err(e) => {
            return Err(CisoError::BadHeader(e));
        },
    };
    if h.block_size != 2048 {
        return Err(CisoError::UnsupportedBlockSize(h.block_size));
    }
    let n: u64 = h.uncompressed_size / SECTOR_SIZE + 1;
    if n > usize::MAX as u64 / 4 {
        if n > (size - HEADER_SIZE) / 4 {
            return Err(CisoError::IndexTooLarge);
        }
        return Err(CisoError::IndexUnaddressable);
    }
    let index_len: u64 = match validate_index_table_size(n as usize, HEADER_SIZE, size) {
        Ok(len) => len,
        Err(e) => {
            return Err(e);
        },
    };
    let index = match source.read_at(HEADER_SIZE, index_len as usize) {
        Ok(v) => v,
        Err(e) => {
            return Err(CisoError::Read(e));
        },
    };
    let mut table: Vec<IndexTableEntry> = Vec::new();
    let mut i: usize = 0;
    proof {
        crate::bytes::lemma_pow256();
    }
    while i < n as usize
        invariant
            i <= n,
            n * 4 <= usize::MAX,
            index@.len() == n * 4,
            crate::bytes::pow256(4) == 0x1_0000_0000,
            table@ == table_of(index@, n as int).take(i as int),
        decreases n - i,
    {
        table.push(IndexTableEntry { raw: get_le(index.as_slice(), i * 4, 4) as u32 });
        i = i + 1;
        assert(table@ =~= table_of(index@, n as int).take(i as int));
    }
    assert(table@ =~= table_of(index@, n as int));
    Ok((h, table))
}

/// Where a sector's bytes are stored, by its entry and the next.
pub open spec fn stored_at(entry: IndexTableEntry, alignment: u8) -> int {
    entry.pos() * pow2(alignment as nat)
}

/// How many bytes a sector's entry and the next say are stored for it.
pub open spec fn stored_len(
    entry: IndexTableEntry,
    next: IndexTableEntry,
    alignment: u8,
) -> int {
    (next.pos() - entry.pos()) * pow2(alignment as nat) % 0x1_0000_0000
}

/// Where a sector's bytes are stored in its part, and how many; none if positions fall back
/// from it to the next or the alignment is past 31.
pub fn stored_range(alignment: u8, entry: IndexTableEntry, next: IndexTableEntry) -> (r: Option<
    (u64, u32),
>)
    ensures
        r is Some <==> alignment < 32 && entry.pos() <= next.pos(),
        r matches Some((pos, len)) ==> pos == stored_at(entry, alignment) && len == stored_len(
            entry,
            next,
            alignment,
        ),
{
    let from: u32 = entry.position();
    let to: u32 = next.position();
    if alignment >= 32 || to < from {
        return None;
    }
    proof {
        lemma2_to64();
        if alignment < 31 {
            lemma_pow2_strictly_increases(alignment as nat, 31);
        }
        lemma_pow2_pos(alignment as nat);
        let p = pow2(alignment as nat);
        assert(from * p <= 0x8000_0000 * 0x8000_0000) by (nonlinear_arith)
            requires
                0 <= from < 0x8000_0000,
                0 < p <= 0x8000_0000,
        ;
        assert((to - from) * p <= 0x8000_0000 * 0x8000_0000) by (nonlinear_arith)
            requires
                0 <= to - from < 0x8000_0000,
                0 < p <= 0x8000_0000,
        ;
        vstd::bits::lemma_u64_shl_is_mul(from as u64, alignment as u64);
        vstd::bits::lemma_u64_shl_is_mul((to - from) as u64, alignment as u64);
    }
    let pos: u64 = (from as u64) << (alignment as u64);
    let len: u64 = ((to - from) as u64) << (alignment as u64);
    Some((pos, (len % 0x1_0000_0000) as u32))
}

/// A sector out of its stored bytes.
pub open spec fn stored_sector(data: Seq<u8>, is_compressed: bool) -> Result<Seq<u8>, CisoError> {
    if !is_compressed {
        if data.len() == 2048 {
            Ok(data)
        } else {
            Err(CisoError::BadStoredLength)
        }
    } else {
        match lz4_frame_decoded(framed(data)) {
            Some(d) => if d.len() == 2048 {
                Ok(d)
            } else {
                Err(CisoError::BadBlock)
            },
            None => Err(CisoError::BadBlock),
        }
    }
}

/// Decodes a sector's stored bytes.
pub fn decode_stored(data: &[u8], is_compressed: bool) -> (r: Result<Vec<u8>, CisoError>)
    ensures
        match r {
            Ok(v) => stored_sector(data@, is_compressed) == Ok::<Seq<u8>, CisoError>(v@),
            Err(e) => stored_sector(data@, is_compressed) == Err::<Seq<u8>, CisoError>(e),
        },
{
    if !is_compressed {
        if data.len() == 2048 {
            let r = crate::bytes::copy_range(data, 0, data.len());
            assert(r@ =~= data@);
            return Ok(r);
        }
        return Err(CisoError::BadStoredLength);
    }
    match decode_lz4_sector(data) {
        Some(d) => if d.len() == 2048 {
            Ok(d)
        } else {
            Err(CisoError::BadBlock)
        },
        None => Err(CisoError::BadBlock),
    }
}

/// The parts of one image, in order.
///
/// A sector's stored bytes end where the index says that the next one's start, counted in fours.
/// So two sectors of a written image cannot be read back by its index: the last one of a part
/// that another part follows, whose next entry points into that other part, and the very last
/// one, if its stored length is no multiple of four.
pub struct CisoSource<S: ByteSource> {
    pub parts: Vec<S>,
    pub header: CsoFields,
    /// One entry per sector, and one that ends the last.
    pub index_table: Vec<IndexTableEntry>,
    /// The first sector of each part.
    pub part_start_sector: Vec<u64>,
}

/// The last of the first `k` starts that is at or before `sector`.
pub open spec fn part_of(starts: Seq<u64>, sector: int, k: int) -> int
    decreases k,
{
    if k <= 1 || starts[k - 1] <= sector {
        k - 1
    } else {
        part_of(starts, sector, k - 1)
    }
}

proof fn lemma_part_of(starts: Seq<u64>, sector: int, r: int, k: int)
    requires
        ascending(starts),
        0 <= r < k <= starts.len(),
        starts[r] <= sector,
        r + 1 < starts.len() ==> sector < starts[r + 1],
    ensures
        part_of(starts, sector, k) == r,
    decreases k,
{
    if k - 1 > r {
        assert(starts[k - 1] > sector) by {
            if k - 1 > r + 1 {
                assert(starts[r + 1] < starts[k - 1]);
            }
        }
        lemma_part_of(starts, sector, r, k - 1);
    }
}

/// `r` is what opening an image of these parts comes to.
pub open spec fn is_opened<S: ByteSource>(
    parts: Vec<S>,
    r: Result<CisoSource<S>, CisoError>,
) -> bool {
    match r {
        Ok(c) => {
            &&& c.wf()
            &&& c.parts@.len() == parts@.len() >= 1
            &&& parse_first_part(parts@[0].bytes()) == Ok::<
                (CsoFields, Seq<IndexTableEntry>),
                CisoError,
            >((c.header, c.index_table@))
            &&& forall|i: int|
                0 <= i < parts@.len() ==> (#[trigger] c.parts@[i]).bytes()
                    == parts@[i].bytes() && c.parts@[i].reliable() == parts@[i].reliable()
        },
        Err(CisoError::NoParts) => parts@.len() == 0,
        Err(CisoError::MissingParts) => parts@.len() >= 1 && (parse_first_part(
            parts@[0].bytes(),
        ) matches Ok((h, table)) && part_starts(table, table.len() - 1).len()
            > parts@.len()),
        Err(e) => parts@.len() >= 1 && ((e is Read && !parts@[0].reliable())
            || parse_first_part(parts@[0].bytes()) == Err::<
            (CsoFields, Seq<IndexTableEntry>),
            CisoError,
        >(e)),
    }
}

impl<S: ByteSource> CisoSource<S> {
    pub open spec fn wf(&self) -> bool {
        &&& forall|i: int| 0 <= i < self.parts@.len() ==> (#[trigger] self.parts@[i]).valid()
        &&& self.index_table@.len() >= 1
        &&& self.index_table@.len() <= u64::MAX
        &&& self.part_start_sector@ == part_starts(
            self.index_table@,
            self.index_table@.len() - 1,
        )
        &&& self.part_start_sector@.len() <= self.parts@.len()
    }

    /// What a sector of the image holds.
    pub open spec fn image_sector(&self, s: int) -> Result<Seq<u8>, CisoError> {
        if s >= self.index_table@.len() - 1 {
            Err(CisoError::SectorOutOfRange)
        } else if self.header.alignment >= 32 {
            Err(CisoError::UnsupportedAlignment(self.header.alignment))
        } else {
            let e = self.index_table@[s];
            let next = self.index_table@[s + 1];
            let at = stored_at(e, self.header.alignment);
            let len = stored_len(e, next, self.header.alignment);
            let part = part_of(
                self.part_start_sector@,
                s,
                self.part_start_sector@.len() as int,
            );
            let b = self.parts@[part].bytes();
            if next.pos() < e.pos() || at + len > b.len() {
                Err(CisoError::StoredRangeOverrun)
            } else {
                stored_sector(field(b, at, len), e.is_compressed())
            }
        }
    }

    pub open spec fn all_reliable(&self) -> bool {
        forall|i: int| 0 <= i < self.parts@.len() ==> (#[trigger] self.parts@[i]).reliable()
    }

    /// Opens an image made of these parts.
    pub fn open(parts: Vec<S>) -> (r: Result<CisoSource<S>, CisoError>)
        requires
            forall|i: int| 0 <= i < parts@.len() ==> (#[trigger] parts@[i]).valid(),
        ensures
            is_opened(parts, r),
    {
        if parts.len() == 0 {
            return Err(CisoError::NoParts);
        }
        let mut parts = parts;
        let ghost all = parts@;
        let (header, index_table) = match parse_header_and_index(&mut parts[0]) {
            Ok(x) => x,
            Err(e) => {
                return Err(e);
            },
        };
        assert forall|i: int| 0 <= i < parts@.len() implies (#[trigger] parts@[i]).valid()
            && parts@[i].bytes() == all[i].bytes() && parts@[i].reliable() == all[i].reliable() by {
            assert(all[i].valid());
        }
        let starts = part_boundaries(index_table.as_slice());
        if parts.len() < starts.len() {
            return Err(CisoError::MissingParts);
        }
        Ok(CisoSource { parts, header, index_table, part_start_sector: starts })
    }

    fn read_part(&mut self, i: usize, at: u64, n: usize) -> (r: Result<Vec<u8>, ReadError>)
        requires
            old(self).wf(),
            i < old(self).parts@.len(),
        ensures
            final(self).wf(),
            final(self).index_table == old(self).index_table,
            final(self).all_reliable() == old(self).all_reliable(),
            forall|s: int| #[trigger] final(self).image_sector(s) == old(self).image_sector(s),
            match r {
                Ok(v) => at + n <= old(self).parts@[i as int].bytes().len() && v@ == old(
                    self,
                ).parts@[i as int].bytes().subrange(at as int, at + n),
                Err(_) => !old(self).all_reliable() || at + n > old(
                    self,
                ).parts@[i as int].bytes().len(),
            },
    {
        let ghost start = *self;
        assert(start.parts@[i as int].valid());
        let r = self.parts[i].read_at(at, n);
        proof {
            assert forall|j: int| 0 <= j < self.parts@.len() implies (
            #[trigger] self.parts@[j]).valid() && self.parts@[j].bytes() == start.parts@[j].bytes()
                && self.parts@[j].reliable() == start.parts@[j].reliable() by {
                assert(start.parts@[j].valid());
            }
            assert(self.all_reliable() == start.all_reliable()) by {
                assert forall|j: int| 0 <= j < start.parts@.len() implies (
                #[trigger] start.parts@[j]).reliable() == self.parts@[j].reliable() by {
                }
            }
            assert forall|s: int| #[trigger] self.image_sector(s) == start.image_sector(s) by {
                if 0 <= s < start.index_table@.len() - 1 {
                    lemma_part_in_range(start.part_start_sector@, s, start.part_start_sector@.len() as int);
                    let p = part_of(
                        start.part_start_sector@,
                        s,
                        start.part_start_sector@.len() as int,
                    );
                    part_starts_ascend(start.index_table@, start.index_table@.len() - 1);
                    assert(self.parts@[p].bytes() == start.parts@[p].bytes());
                } else if s < 0 {
                    lemma_part_in_range(start.part_start_sector@, s, start.part_start_sector@.len() as int);
                    part_starts_ascend(start.index_table@, start.index_table@.len() - 1);
                    let p = part_of(
                        start.part_start_sector@,
                        s,
                        start.part_start_sector@.len() as int,
                    );
                    assert(self.parts@[p].bytes() == start.parts@[p].bytes());
                }
            }
        }
        r
    }
}

proof fn lemma_part_in_range(starts: Seq<u64>, s: int, k: int)
    ensures
        k >= 1 ==> 0 <= part_of(starts, s, k) < k,
    decreases k,
{
    if k > 1 {
        lemma_part_in_range(starts, s, k - 1);
    }
}

impl<S: ByteSource> ImageSource for CisoSource<S> {
    type Failure = CisoError;

    open spec fn usable(&self) -> bool {
        self.wf()
    }

    open spec fn sector_count(&self) -> int {
        self.index_table@.len() - 1
    }

    open spec fn sector(&self, s: int) -> Result<Seq<u8>, CisoError> {
        self.image_sector(s)
    }

    open spec fn excused(&self, e: CisoError) -> bool {
        e is Read && !self.all_reliable()
    }

    fn total_sectors(&self) -> (r: u64) {
        self.index_table.len() as u64 - 1
    }

    fn read_sector(&mut self, sector: u64) -> (r: Result<Vec<u8>, CisoError>) {
        if sector >= self.index_table.len() as u64 - 1 {
            return Err(CisoError::SectorOutOfRange);
        }
        if self.header.alignment >= 32 {
            return Err(CisoError::UnsupportedAlignment(self.header.alignment));
        }
        let i: usize = sector as usize;
        let entry: IndexTableEntry = self.index_table[i];
        let next: IndexTableEntry = self.index_table[i + 1];
        let (at, len): (u64, u32) = match stored_range(self.header.alignment, entry, next) {
            Some(x) => x,
            None => {
                return Err(CisoError::StoredRangeOverrun);
            },
        };
        proof {
            part_starts_ascend(self.index_table@, self.index_table@.len() - 1);
        }
        let part: usize = locate_part(self.part_start_sector.as_slice(), sector);
        proof {
            lemma_part_of(
                self.part_start_sector@,
                sector as int,
                part as int,
                self.part_start_sector@.len() as int,
            );
            assert(self.parts@[part as int].valid());
        }
        let size: u64 = self.parts[part].size();
        if let Err(e) = validate_stored_range(at, len, size) {
            return Err(e);
        }
        match self.read_part(part, at, len as usize) {
            Ok(v) => decode_stored(v.as_slice(), entry.compression_type()),
            Err(e) => Err(CisoError::Read(e)),
        }
    }
}

} // verus!
