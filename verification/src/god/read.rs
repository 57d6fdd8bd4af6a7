//! Reading the parts of a package as one image.
use crate::bytes::{ceil_div, field, opt_view};
use crate::god::format::{BLOCKS_PER_PART, BLOCKS_PER_SUBPART, BLOCK_SIZE};
use crate::source::{ByteSource, ImageSource, ReadError};
use crate::stfs::format::{
    header_prefix_of, read_header_prefix, read_header_thumbnails, thumbnail_max, thumbnail_of,
    ContentType, HeaderError,
};
use crate::stfs::read::{header_of, HEADER_PROBE_LEN};
use vstd::prelude::*;

verus! {

/// Why a package cannot be read.
#[derive(Clone, Copy, Debug, PartialEq, Eq, Structural)]
pub enum GodReadError {
    NoParts,
    /// The last part is smaller than a block.
    LastPartTooSmall,
    TooManySectors,
    BadHeader(HeaderError),
    /// The sector lies in a part that was not supplied.
    MissingPart,
    Read(ReadError),
}

impl GodReadError {
    pub open spec fn text(self) -> Seq<char> {
        match self {
            GodReadError::NoParts => "god: at least one Data%04d part is required"@,
            GodReadError::LastPartTooSmall => "god: last part is smaller than one block"@,
            GodReadError::TooManySectors => "god: too many sectors"@,
            GodReadError::BadHeader(_) => "not a LIVE/PIRS/CON-style header"@,
            GodReadError::MissingPart => "god: sector maps to a part that was not supplied"@,
            GodReadError::Read(_) => "god: read failed"@,
        }
    }

    pub fn message(&self) -> (r: &'static str)
        ensures
            r@ == self.text(),
    {
        match *self {
            GodReadError::NoParts => "god: at least one Data%04d part is required",
            GodReadError::LastPartTooSmall => "god: last part is smaller than one block",
            GodReadError::TooManySectors => "god: too many sectors",
            GodReadError::BadHeader(_) => "not a LIVE/PIRS/CON-style header",
            GodReadError::MissingPart => "god: sector maps to a part that was not supplied",
            GodReadError::Read(_) => "god: read failed",
        }
    }
}

/// The part that holds a sector.
pub open spec fn part_of_sector(sector: int) -> int {
    sector / 2 / 0xa1c4
}

/// Where a sector stands in its part: after the master hash block, the hash blocks of its own
/// and earlier subparts, and the data blocks before it.
pub open spec fn offset_of_sector(sector: int) -> int {
    let block = sector / 2 % 0xa1c4;
    0x1000 + (block / 0xcc + 1) * 0x1000 + block * 0x1000 + sector % 2 * 2048
}

/// How many sectors a package has by the size of its last part: every part before is full, and
/// the last one's data blocks are its blocks less its own hash blocks, the master one and one
/// per subpart begun.
pub open spec fn sectors_by_size(parts: int, last_size: int) -> int {
    let blocks = last_size / 0x1000;
    (blocks - 1 - ceil_div(blocks - 1, 0xcd) + 0xa1c4 * (parts - 1)) * 2
}

/// The parts of one package, in order.
pub struct GodSource<S: ByteSource> {
    pub parts: Vec<S>,
    pub total: u64,
    /// From the package's header, where one was supplied.
    pub header_content_type: Option<ContentType>,
    pub header_thumbnail: Option<Vec<u8>>,
    pub header_title_thumbnail: Option<Vec<u8>>,
}

/// `r` is what opening a package of these parts comes to.
pub open spec fn is_opened<S: ByteSource>(
    parts: Vec<S>,
    header: Option<S>,
    r: Result<GodSource<S>, GodReadError>,
) -> bool {
    match r {
        Ok(g) => {
            &&& g.wf()
            &&& g.parts == parts
            &&& parts@.last().bytes().len() >= 0x1000
            &&& g.total == sectors_by_size(
                parts@.len() as int,
                parts@.last().bytes().len() as int,
            )
            &&& match header {
                Some(h) => g.header_matches(header_of(h.bytes())),
                None => g.header_content_type is None && g.header_thumbnail is None
                    && g.header_title_thumbnail is None,
            }
        },
        Err(GodReadError::NoParts) => parts@.len() == 0,
        Err(GodReadError::LastPartTooSmall) => parts@.len() >= 1
            && parts@.last().bytes().len() < 0x1000,
        Err(GodReadError::TooManySectors) => parts@.len() >= 1 && sectors_by_size(
            parts@.len() as int,
            parts@.last().bytes().len() as int,
        ) > u64::MAX,
        Err(GodReadError::BadHeader(e)) => header matches Some(h) && header_prefix_of(
            header_of(h.bytes()),
        ) == Err::<crate::stfs::format::HeaderPrefix, HeaderError>(e),
        Err(GodReadError::Read(_)) => header matches Some(h) && !h.reliable(),
        Err(_) => false,
    }
}

impl<S: ByteSource> GodSource<S> {
    pub open spec fn wf(&self) -> bool {
        &&& self.parts@.len() >= 1
        &&& forall|i: int| 0 <= i < self.parts@.len() ==> (#[trigger] self.parts@[i]).valid()
    }

    pub open spec fn all_reliable(&self) -> bool {
        forall|i: int| 0 <= i < self.parts@.len() ==> (#[trigger] self.parts@[i]).reliable()
    }

    /// What a sector of the image holds.
    pub open spec fn image_sector(&self, s: int) -> Result<Seq<u8>, GodReadError> {
        let p = part_of_sector(s);
        if s < 0 || p >= self.parts@.len() {
            Err(GodReadError::MissingPart)
        } else if offset_of_sector(s) + 2048 > self.parts@[p].bytes().len() {
            Err(GodReadError::Read(ReadError))
        } else {
            Ok(field(self.parts@[p].bytes(), offset_of_sector(s), 2048))
        }
    }

    /// The header fields are those of the header `h`.
    pub open spec fn header_matches(&self, h: Seq<u8>) -> bool {
        &&& header_prefix_of(h) matches Ok(p) && p.content_type == self.header_content_type
        &&& h.len() < 0x171A ==> self.header_thumbnail is None && self.header_title_thumbnail
            is None
        &&& h.len() >= 0x171A ==> {
            &&& opt_view(self.header_thumbnail) == thumbnail_of(
                h,
                0x171A,
                crate::bytes::be_val(field(h, 0x1712, 4)) as int,
                thumbnail_max(h),
            )
            &&& opt_view(self.header_title_thumbnail) == thumbnail_of(
                h,
                0x571A,
                crate::bytes::be_val(field(h, 0x1716, 4)) as int,
                thumbnail_max(h),
            )
        }
    }

    /// Opens a package made of these parts, with its header if there is one.
    pub fn open(parts: Vec<S>, header: Option<S>) -> (r: Result<GodSource<S>, GodReadError>)
        requires
            forall|i: int| 0 <= i < parts@.len() ==> (#[trigger] parts@[i]).valid(),
            header matches Some(h) ==> h.valid(),
        ensures
            is_opened(parts, header, r),
    {
        let n: usize = parts.len();
        if n == 0 {
            return Err(GodReadError::NoParts);
        }
        let last_size: u64 = parts[n - 1].size();
        if last_size < BLOCK_SIZE {
            return Err(GodReadError::LastPartTooSmall);
        }
        let blocks: u64 = last_size / BLOCK_SIZE;
        let hash_blocks: u64 = (blocks - 1 + BLOCKS_PER_SUBPART) / (BLOCKS_PER_SUBPART + 1);
        proof {
            let x = blocks as int - 1;
            assert((x + 0xcc) / 0xcd <= x);
        }
        let data_blocks: u64 = blocks - 1 - hash_blocks;
        let total: u128 = (data_blocks as u128 + BLOCKS_PER_PART as u128 * (n as u128 - 1)) * 2;
        if total > 0xFFFF_FFFF_FFFF_FFFF {
            return Err(GodReadError::TooManySectors);
        }
        let mut g = GodSource {
            parts,
            total: total as u64,
            header_content_type: None,
            header_thumbnail: None,
            header_title_thumbnail: None,
        };
        if let Some(h) = header {
            let mut h = h;
            let size: u64 = h.size();
            let probe: usize = if size < HEADER_PROBE_LEN as u64 {
                size as usize
            } else {
                HEADER_PROBE_LEN
            };
            let ghost hb = h.bytes();
            let bytes = match h.read_at(0, probe) {
                Ok(b) => b,
                Err(e) => {
                    return Err(GodReadError::Read(e));
                },
            };
            assert(bytes@ =~= header_of(hb));
            match read_header_prefix(bytes.as_slice()) {
                Ok(p) => {
                    g.header_content_type = p.content_type;
                },
                Err(e) => {
                    return Err(GodReadError::BadHeader(e));
                },
            }
            let thumbs = read_header_thumbnails(bytes.as_slice());
            g.header_thumbnail = thumbs.thumbnail;
            g.header_title_thumbnail = thumbs.title_thumbnail;
        }
        Ok(g)
    }

    /// The part that holds a sector, and where it stands there.
    pub fn remap_sector(&self, sector: u64) -> (r: Result<(usize, u64), GodReadError>)
        ensures
            match r {
                Ok((part, offset)) => part == part_of_sector(sector as int) && part
                    < self.parts@.len() && offset == offset_of_sector(sector as int) && offset
                    <= 0x1_0000_0000,
                Err(e) => e is MissingPart && part_of_sector(sector as int) >= self.parts@.len(),
            },
    {
        let block: u64 = sector / 2;
        let part: u64 = block / BLOCKS_PER_PART;
        let block_in_part: u64 = block % BLOCKS_PER_PART;
        if part >= self.parts.len() as u64 {
            return Err(GodReadError::MissingPart);
        }
        let subpart: u64 = block_in_part / BLOCKS_PER_SUBPART;
        let offset: u64 = BLOCK_SIZE + (subpart + 1) * BLOCK_SIZE + block_in_part * BLOCK_SIZE
            + sector % 2 * 2048;
        Ok((part as usize, offset))
    }
}

impl<S: ByteSource> ImageSource for GodSource<S> {
    type Failure = GodReadError;

    open spec fn usable(&self) -> bool {
        self.wf()
    }

    open spec fn sector_count(&self) -> int {
        self.total as int
    }

    open spec fn sector(&self, s: int) -> Result<Seq<u8>, GodReadError> {
        self.image_sector(s)
    }

    open spec fn excused(&self, e: GodReadError) -> bool {
        e is Read && !self.all_reliable()
    }

    fn total_sectors(&self) -> (r: u64) {
        self.total
    }

    fn read_sector(&mut self, sector: u64) -> (r: Result<Vec<u8>, GodReadError>) {
        let ghost start = *self;
        let (part, offset) = match self.remap_sector(sector) {
            Ok(x) => x,
            Err(e) => {
                return Err(e);
            },
        };
        assert(start.parts@[part as int].valid());
        let r = self.parts[part].read_at(offset, 2048);
        proof {
            assert forall|j: int| 0 <= j < self.parts@.len() implies (
            #[trigger] self.parts@[j]).valid() && self.parts@[j].bytes() == start.parts@[j].bytes()
                && self.parts@[j].reliable() == start.parts@[j].reliable() by {
                assert(start.parts@[j].valid());
            }
            assert(self.all_reliable() == start.all_reliable()) by {
                assert forall|j: int| 0 <= j < start.parts@.len() implies (
                #[trigger] start.parts@[j]).reliable() == self.parts@[j].reliable() by {
                }
            }
            assert forall|s: int| #[trigger] self.image_sector(s) == start.image_sector(s) by {
                let p = part_of_sector(s);
                if 0 <= p < self.parts@.len() {
                    assert(self.parts@[p].bytes() == start.parts@[p].bytes());
                }
            }
        }
        match r {
            Ok(v) => Ok(v),
            Err(e) => {
                assert(e == ReadError);
                Err(GodReadError::Read(e))
            },
        }
    }
}

} // verus!
