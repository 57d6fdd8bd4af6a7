//! Reading a package: header, hash tables, file listing and file data.
use crate::bytes::{be_val, ceil_div, field, get_be, opt_view, round_up};
use crate::source::{ByteSource, FileSource, ReadError};
use crate::stfs::format::{
    avatar_item_reads, display_name_of, has_installer_room, header_prefix_of, installer_reads,
    level_for, metadata_reads, read_avatar_item_metadata, read_display_name, read_header_prefix,
    read_header_thumbnails, read_installer_metadata, read_video_metadata, thumbnail_max,
    thumbnail_of, top_level_for, video_reads, AvatarItemMetadata, ContentType, InstallerMetadata,
    Level, StfsMetadata, VideoMetadata, BLOCK_SIZE, OFF_DESCRIPTOR_TYPE,
};
use crate::stfs::layout::{
    copies, data_position, level0_position, level1_position, level2_position, positions_are_bounded,
    shift_of, BlockMap, END_OF_CHAIN,
};
use crate::stfs::listing::{
    block_entries, build_paths, check_block_in_range, decode_listing_block, entry_models,
    file_models, listed_files, EntryModel, ListedFile, RawEntry, StfsReadError,
};
use vstd::prelude::*;

verus! {

/// The most header bytes that are looked at: up to the end of the largest trailer.
pub const HEADER_PROBE_LEN: usize = 0xAD0E;

/// The part of a package's bytes that its header fields are read from.
pub open spec fn header_of(bytes: Seq<u8>) -> Seq<u8> {
    if bytes.len() <= 0xAD0E {
        bytes
    } else {
        bytes.take(0xAD0E)
    }
}

/// What locates the blocks of a package.
pub struct Geometry {
    pub first_hash_table_address: int,
    pub block_separation: u8,
    pub allocated: int,
    pub level: Level,
}

impl Geometry {
    pub open spec fn c(self) -> int {
        copies(shift_of(self.block_separation))
    }

    /// Offset of the second copy of a table, if the package's root is there.
    pub open spec fn root_offset(self) -> int {
        if self.block_separation / 2 % 2 == 1 {
            0x1000
        } else {
            0
        }
    }

    /// Where the top hash table stands.
    pub open spec fn top_address(self) -> int {
        (match self.level {
            Level::Zero => 0,
            Level::One => level1_position(self.c(), 0),
            Level::Two => level2_position(self.c()),
        }) * 0x1000 + self.first_hash_table_address + self.root_offset()
    }

    /// How many records the top table has.
    pub open spec fn top_entries(self) -> int {
        match self.level {
            Level::Zero => self.allocated,
            Level::One => ceil_div(self.allocated, 0xAA),
            Level::Two => ceil_div(self.allocated, 0x70E4),
        }
    }

    /// Where data block `b` stands.
    pub open spec fn data_address(self, b: int) -> int {
        data_position(self.c(), b) * 0x1000 + self.first_hash_table_address
    }
}

/// Offset of the copy of a table that a status byte points to.
pub open spec fn copy_offset(status: u8) -> int {
    if status / 0x40 % 2 == 1 {
        0x1000
    } else {
        0
    }
}

/// The status bytes of the top table; none if it is cut short.
pub open spec fn top_statuses(bytes: Seq<u8>, g: Geometry) -> Option<Seq<u8>> {
    if g.top_address() + g.top_entries() * 0x18 <= bytes.len() {
        Some(
            Seq::new(
                g.top_entries() as nat,
                |i: int| bytes[g.top_address() + i * 0x18 + 0x14],
            ),
        )
    } else {
        None
    }
}

/// Where the level-1 table of group `k` stands.
pub open spec fn level1_address(g: Geometry, top: Seq<u8>, k: int) -> int {
    level1_position(g.c(), k * 0x70E4) * 0x1000 + g.first_hash_table_address + copy_offset(top[k])
}

/// The status bytes of one level-1 table.
pub open spec fn level1_group(bytes: Seq<u8>, at: int) -> Seq<u8> {
    Seq::new(0xAA, |i: int| bytes[at + i * 0x18 + 0x14])
}

/// The level-1 status bytes of a package that a level-2 table tops, the first `k` groups;
/// none if one is cut short.
pub open spec fn level1_statuses(bytes: Seq<u8>, g: Geometry, top: Seq<u8>, k: int) -> Option<
    Seq<Seq<u8>>,
>
    decreases k,
{
    if k <= 0 {
        Some(Seq::empty())
    } else {
        match level1_statuses(bytes, g, top, k - 1) {
            None => None,
            Some(groups) => {
                let at = level1_address(g, top, k - 1);
                if at + 0xAA * 0x18 <= bytes.len() {
                    Some(groups.push(level1_group(bytes, at)))
                } else {
                    None
                }
            },
        }
    }
}

proof fn lemma_level1_none(bytes: Seq<u8>, g: Geometry, top: Seq<u8>, k: int, n: int)
    requires
        0 <= k <= n,
        level1_statuses(bytes, g, top, k) is None,
    ensures
        level1_statuses(bytes, g, top, n) is None,
    decreases n - k,
{
    if k < n {
        lemma_level1_none(bytes, g, top, k, n - 1);
    }
}

/// A package whose tables have been located.
pub struct Tables {
    pub g: Geometry,
    pub top: Seq<u8>,
    pub level1: Seq<Seq<u8>>,
}

impl Tables {
    pub open spec fn wf(self) -> bool {
        &&& 0 < self.g.allocated
        &&& level_for(self.g.allocated) == Some(self.g.level)
        &&& 0 <= self.g.first_hash_table_address <= 0xFFFF_F000
        &&& self.top.len() == self.g.top_entries()
        &&& self.g.level == Level::Two ==> self.level1.len() == self.top.len()
        &&& forall|k: int| 0 <= k < self.level1.len() ==> (#[trigger] self.level1[k]).len() == 0xAA
    }

    /// Where the hash record of block `b` stands.
    pub open spec fn record_address(self, b: int) -> int {
        level0_position(self.g.c(), b) * 0x1000 + self.g.first_hash_table_address + b % 0xAA * 0x18
            + (match self.g.level {
            Level::Zero => self.g.root_offset(),
            Level::One => copy_offset(self.top[b / 0xAA]),
            Level::Two => copy_offset(self.level1[b / 0x70E4][b % 0xAA]),
        })
    }

    /// The block that follows `b` in its chain, as its hash record says.
    pub open spec fn next(self, bytes: Seq<u8>, b: int) -> Result<int, StfsReadError> {
        if b >= self.g.allocated {
            Err(StfsReadError::IllegalBlock)
        } else if self.record_address(b) + 0x18 > bytes.len() {
            Err(StfsReadError::Read(ReadError))
        } else {
            Ok(be_val(field(bytes, self.record_address(b) + 0x15, 3)) as int)
        }
    }

    /// The block `steps` after `b` in its chain.
    pub open spec fn chain_from(self, bytes: Seq<u8>, b: int, steps: nat) -> Result<
        int,
        StfsReadError,
    >
        decreases steps,
    {
        if steps == 0 {
            Ok(b)
        } else {
            match self.next(bytes, b) {
                Err(e) => Err(e),
                Ok(n) => if n == END_OF_CHAIN {
                    Err(StfsReadError::ChainEnded)
                } else {
                    self.chain_from(bytes, n, (steps - 1) as nat)
                },
            }
        }
    }

    /// The `n` bytes of a chain from offset `pos` in block `b` on.
    pub open spec fn read_from(self, bytes: Seq<u8>, b: int, pos: int, n: int) -> Result<
        Seq<u8>,
        StfsReadError,
    >
        decreases n,
    {
        let m = if n < 0x1000 - pos {
            n
        } else {
            0x1000 - pos
        };
        if n <= 0 || m <= 0 {
            Ok(Seq::empty())
        } else if b >= self.g.allocated {
            Err(StfsReadError::IllegalBlock)
        } else if self.g.data_address(b) + pos + m > bytes.len() {
            Err(StfsReadError::Read(ReadError))
        } else {
            let piece = field(bytes, self.g.data_address(b) + pos, m);
            if m == n {
                Ok(piece)
            } else {
                match self.chain_from(bytes, b, 1) {
                    Err(e) => Err(e),
                    Ok(nb) => match self.read_from(bytes, nb, 0, n - m) {
                        Err(e) => Err(e),
                        Ok(rest) => Ok(piece + rest),
                    },
                }
            }
        }
    }

    /// The `n` bytes from offset `offset` of the file that starts at block `start`.
    pub open spec fn file_range(self, bytes: Seq<u8>, start: int, offset: int, n: int) -> Result<
        Seq<u8>,
        StfsReadError,
    > {
        match self.chain_from(bytes, start, (offset / 0x1000) as nat) {
            Err(e) => Err(e),
            Ok(b) => self.read_from(bytes, b, offset % 0x1000, n),
        }
    }

    /// The entries of the listing, from `block` on for at most `left` blocks; slot numbers
    /// start at `index`.
    pub open spec fn listing(self, bytes: Seq<u8>, block: int, left: nat, index: int) -> Result<
        Seq<EntryModel>,
        StfsReadError,
    >
        decreases left,
    {
        if left == 0 {
            Ok(Seq::empty())
        } else if block >= self.g.allocated {
            Err(StfsReadError::IllegalBlock)
        } else if self.g.data_address(block) + 0x1000 > bytes.len() {
            Err(StfsReadError::Read(ReadError))
        } else {
            let here = block_entries(field(bytes, self.g.data_address(block), 0x1000), index, 0x40);
            match self.next(bytes, block) {
                Err(e) => Err(e),
                Ok(n) => if n == END_OF_CHAIN {
                    Ok(here)
                } else {
                    match self.listing(bytes, n, (left - 1) as nat, (index + 0x40) % 0x1_0000) {
                        Err(e) => Err(e),
                        Ok(rest) => Ok(here + rest),
                    }
                },
            }
        }
    }
}

/// The geometry that a header gives, if it is a package's.
pub open spec fn geometry_of(bytes: Seq<u8>, m: StfsMetadata) -> Result<Geometry, StfsReadError> {
    let h = header_of(bytes);
    if bytes.len() <= 0x411 {
        Err(StfsReadError::TooSmall)
    } else if header_prefix_of(h) is Err {
        Err(StfsReadError::NotAPackage)
    } else if m.volume_descriptor.allocated_block_count == 0 {
        Err(StfsReadError::NoAllocatedBlocks)
    } else if be_val(field(h, 0x3A9, 4)) != 0 {
        Err(StfsReadError::NotStfsShaped(be_val(field(h, 0x3A9, 4)) as u32))
    } else if m.header_size > 0xFFFF_F000 {
        Err(StfsReadError::HeaderTooLarge)
    } else {
        match level_for(m.volume_descriptor.allocated_block_count as int) {
            None => Err(StfsReadError::InvalidBlockCount),
            Some(level) => Ok(
                Geometry {
                    first_hash_table_address: round_up(m.header_size as int, 0x1000),
                    block_separation: m.volume_descriptor.block_separation,
                    allocated: m.volume_descriptor.allocated_block_count as int,
                    level,
                },
            ),
        }
    }
}

/// The located tables of a package with this geometry.
pub open spec fn tables_of(bytes: Seq<u8>, g: Geometry) -> Result<Tables, StfsReadError> {
    match top_statuses(bytes, g) {
        None => Err(StfsReadError::Read(ReadError)),
        Some(top) => if g.level == Level::Two {
            match level1_statuses(bytes, g, top, top.len() as int) {
                None => Err(StfsReadError::Read(ReadError)),
                Some(level1) => Ok(Tables { g, top, level1 }),
            }
        } else {
            Ok(Tables { g, top, level1: Seq::empty() })
        },
    }
}

/// The tables and files of a package.
pub open spec fn package_of(bytes: Seq<u8>, m: StfsMetadata) -> Result<
    (Tables, Seq<ListedFile>),
    StfsReadError,
> {
    match geometry_of(bytes, m) {
        Err(e) => Err(e),
        Ok(g) => match tables_of(bytes, g) {
            Err(e) => Err(e),
            Ok(t) => match t.listing(
                bytes,
                m.volume_descriptor.file_table_block_num as int,
                m.volume_descriptor.file_table_block_count as nat,
                0,
            ) {
                Err(e) => Err(e),
                Ok(entries) => match listed_files(entries, entries.len() as int) {
                    Err(e) => Err(e),
                    Ok(files) => Ok((t, files)),
                },
            },
        },
    }
}

/// `r` is what `spec` says, but that a source which is not reliable may fail to be read.
pub open spec fn read_agrees<T, U>(
    r: Result<T, StfsReadError>,
    spec_result: Result<U, StfsReadError>,
    reliable: bool,
) -> bool {
    match r {
        Ok(_) => spec_result is Ok,
        Err(e) => (e is Read && !reliable) || spec_result == Err::<U, StfsReadError>(e),
    }
}

/// An opened package.
pub struct StfsReader<S: ByteSource> {
    pub source: S,
    pub metadata: StfsMetadata,
    pub thumbnail: Option<Vec<u8>>,
    pub title_thumbnail: Option<Vec<u8>>,
    pub content_type: Option<ContentType>,
    pub raw_content_type: u32,
    pub display_name: Option<String>,
    pub avatar_item_metadata: Option<AvatarItemMetadata>,
    pub video_metadata: Option<VideoMetadata>,
    pub installer_metadata: Option<InstallerMetadata>,
    pub first_hash_table_address: u64,
    pub map: BlockMap,
    pub top_level: Level,
    pub top_table: Vec<u8>,
    pub level1_status: Vec<Vec<u8>>,
    pub block_separation: u8,
    pub allocated_block_count: u32,
    pub files: Vec<(String, u32, u32, bool)>,
    /// File, block and offset of the block that was read last, so that reading on does not
    /// walk the chain again.
    pub chain_cursor: Option<(usize, u64, u64)>,
}

pub open spec fn groups(v: Seq<Vec<u8>>) -> Seq<Seq<u8>> {
    v.map_values(|g: Vec<u8>| g@)
}

/// `r` is what opening a package comes to.
pub open spec fn is_opened<S: ByteSource>(
    source: S,
    r: Result<StfsReader<S>, StfsReadError>,
) -> bool {
    match r {
        Ok(rd) => {
            &&& rd.wf()
            &&& rd.source.bytes() == source.bytes()
            &&& rd.source.reliable() == source.reliable()
            &&& rd.header_matches()
            &&& package_of(source.bytes(), rd.metadata) == Ok::<
                (Tables, Seq<ListedFile>),
                StfsReadError,
            >((rd.tables(), file_models(rd.files@)))
        },
        Err(e) => (e is Read && !source.reliable()) || forall|m: StfsMetadata|
            (source.bytes().len() > 0x411 ==> metadata_reads(header_of(source.bytes()), m))
                ==> #[trigger] package_of(source.bytes(), m) == Err::<
                (Tables, Seq<ListedFile>),
                StfsReadError,
            >(e),
    }
}

impl<S: ByteSource> StfsReader<S> {
    /// The located tables of this package.
    pub open spec fn tables(&self) -> Tables {
        Tables {
            g: Geometry {
                first_hash_table_address: self.first_hash_table_address as int,
                block_separation: self.block_separation,
                allocated: self.allocated_block_count as int,
                level: self.top_level,
            },
            top: self.top_table@,
            level1: groups(self.level1_status@),
        }
    }

    pub open spec fn wf(&self) -> bool {
        &&& self.source.valid()
        &&& self.tables().wf()
        &&& self.map.wf()
        &&& self.map.sex_shift == shift_of(self.block_separation)
        &&& self.chain_cursor matches Some((idx, block, pos)) ==> {
            &&& idx < self.files@.len()
            &&& pos % 0x1000 == 0
            &&& pos <= self.files@[idx as int].2
            &&& block < 0x100_0000
            &&& self.tables().chain_from(
                self.source.bytes(),
                self.files@[idx as int].1 as int,
                (pos / 0x1000) as nat,
            ) == Ok::<int, StfsReadError>(block as int)
        }
        &&& forall|i: int| 0 <= i < self.files@.len() ==> (#[trigger] self.files@[i]).1 < 0x100_0000
    }

    /// The header fields of the reader are those of the package's header.
    pub open spec fn header_matches(&self) -> bool {
        let h = header_of(self.source.bytes());
        &&& metadata_reads(h, self.metadata)
        &&& header_prefix_of(h) matches Ok(p) && p.raw_content_type == self.raw_content_type
            && p.content_type == self.content_type
        &&& h.len() >= 0x171A ==> {
            &&& opt_view(self.thumbnail) == thumbnail_of(
                h,
                0x171A,
                be_val(field(h, 0x1712, 4)) as int,
                thumbnail_max(h),
            )
            &&& opt_view(self.title_thumbnail) == thumbnail_of(
                h,
                0x571A,
                be_val(field(h, 0x1716, 4)) as int,
                thumbnail_max(h),
            )
        }
        &&& h.len() < 0x171A ==> self.thumbnail is None && self.title_thumbnail is None
        &&& match self.display_name {
            Some(s) => display_name_of(h) == Some(s@),
            None => display_name_of(h) is None,
        }
        &&& if self.content_type == Some(ContentType::AvatarItem) {
            avatar_item_reads(h, self.avatar_item_metadata)
        } else {
            self.avatar_item_metadata is None
        }
        &&& if self.content_type == Some(ContentType::Video) {
            video_reads(h, self.video_metadata)
        } else {
            self.video_metadata is None
        }
        &&& if has_installer_room(self.first_hash_table_address as int) {
            installer_reads(h, self.installer_metadata)
        } else {
            self.installer_metadata is None
        }
    }

    /// Opens a package: checks its header, locates its hash tables and reads its listing.
    #[verifier::rlimit(60)]
    pub fn open(source: S) -> (r: Result<StfsReader<S>, StfsReadError>)
        requires
            source.valid(),
        ensures
            is_opened(source, r),
    {
        let mut source = source;
        let ghost bytes = source.bytes();
        let size: u64 = source.size();
        if size <= 0x411 {
            return Err(StfsReadError::TooSmall);
        }
        let probe: usize = if size < HEADER_PROBE_LEN as u64 {
            size as usize
        } else {
            HEADER_PROBE_LEN
        };
        let header = match source.read_at(0, probe) {
            Ok(h) => h,
            Err(e) => {
                return Err(StfsReadError::Read(e));
            },
        };
        assert(header@ =~= header_of(bytes));
        let h = header.as_slice();
        let prefix = match read_header_prefix(h) {
            Ok(p) => p,
            Err(_) => {
                return Err(StfsReadError::NotAPackage);
            },
        };
        let metadata = match StfsMetadata::read_at(h) {
            Some(m) => m,
            None => {
                return Err(StfsReadError::TooSmall);
            },
        };
        let ghost m0 = metadata;
        assert forall|m: StfsMetadata| metadata_reads(h@, m) implies #[trigger] package_of(
            bytes,
            m,
        ) == package_of(bytes, m0) by {
            lemma_metadata_unique(bytes, m, m0);
        }
        proof {
            crate::bytes::lemma_pow256();
        }
        let vd = metadata.volume_descriptor;
        if vd.allocated_block_count == 0 {
            return Err(StfsReadError::NoAllocatedBlocks);
        }
        let descriptor_type: u32 = get_be(h, OFF_DESCRIPTOR_TYPE, 4) as u32;
        if descriptor_type != 0 {
            return Err(StfsReadError::NotStfsShaped(descriptor_type));
        }
        if metadata.header_size > 0xFFFF_F000 {
            return Err(StfsReadError::HeaderTooLarge);
        }
        let top_level = match top_level_for(vd.allocated_block_count as u64) {
            Some(l) => l,
            None => {
                return Err(StfsReadError::InvalidBlockCount);
            },
        };
        let first_hash_table_address: u64 = (metadata.header_size as u64 + 0xFFF) / 0x1000 * 0x1000;
        let thumbs = read_header_thumbnails(h);
        let display_name = read_display_name(h);
        let avatar_item_metadata = if prefix.content_type == Some(ContentType::AvatarItem) {
            read_avatar_item_metadata(h)
        } else {
            None
        };
        let video_metadata = if prefix.content_type == Some(ContentType::Video) {
            read_video_metadata(h)
        } else {
            None
        };
        let installer_metadata = read_installer_metadata(h, first_hash_table_address);
        let mut this = StfsReader {
            source,
            metadata,
            thumbnail: thumbs.thumbnail,
            title_thumbnail: thumbs.title_thumbnail,
            content_type: prefix.content_type,
            raw_content_type: prefix.raw_content_type,
            display_name,
            avatar_item_metadata,
            video_metadata,
            installer_metadata,
            first_hash_table_address,
            map: BlockMap::new(vd.block_separation),
            top_level,
            top_table: Vec::new(),
            level1_status: Vec::new(),
            block_separation: vd.block_separation,
            allocated_block_count: vd.allocated_block_count,
            files: Vec::new(),
            chain_cursor: None,
        };
        let ghost g = this.tables().g;
        assert(geometry_of(bytes, m0) == Ok::<Geometry, StfsReadError>(g));
        let top = match load_top_table(
            &mut this.source,
            first_hash_table_address,
            vd.block_separation,
            vd.allocated_block_count,
            top_level,
        ) {
            Ok(t) => t,
            Err(e) => {
                return Err(StfsReadError::Read(e));
            },
        };
        this.top_table = top;
        if top_level == Level::Two {
            let groups = match load_level1_status(
                &mut this.source,
                first_hash_table_address,
                vd.block_separation,
                vd.allocated_block_count,
                this.top_table.as_slice(),
            ) {
                Ok(g) => g,
                Err(e) => {
                    return Err(StfsReadError::Read(e));
                },
            };
            this.level1_status = groups;
        } else {
            assert(groups(this.level1_status@) =~= Seq::empty());
        }
        assert(tables_of(bytes, g) == Ok::<Tables, StfsReadError>(this.tables()));
        proof {
            if top_level == Level::Two {
                lemma_level1_lens(bytes, g, this.top_table@, this.top_table@.len() as int);
            }
        }
        let entries = match this.read_file_listing(
            vd.file_table_block_num,
            vd.file_table_block_count,
        ) {
            Ok(e) => e,
            Err(e) => {
                return Err(e);
            },
        };
        assert(entry_models(entries@).len() == entries@.len());
        match build_paths(entries.as_slice()) {
            Ok(files) => {
                proof {
                    lemma_listed_blocks(
                        this.tables(),
                        bytes,
                        vd.file_table_block_num as int,
                        vd.file_table_block_count as nat,
                        0,
                    );
                    lemma_files_blocks(entry_models(entries@), entries@.len() as int);
                    assert forall|i: int| 0 <= i < files@.len() implies (#[trigger] files@[i]).1
                        < 0x100_0000 by {
                        assert(file_models(files@)[i].starting_block == files@[i].1);
                    }
                }
                this.files = files;
                Ok(this)
            },
            Err(e) => Err(e),
        }
    }

    /// The chain record of `block_num`: the next block.
    fn next_block(&mut self, block_num: u64) -> (r: Result<u32, StfsReadError>)
        requires
            old(self).wf(),
        ensures
            same_reader(old(self), final(self)),
            final(self).chain_cursor == old(self).chain_cursor,
            final(self).wf(),
            r matches Ok(n) ==> old(self).tables().next(
                old(self).source.bytes(),
                block_num as int,
            ) == Ok::<int, StfsReadError>(n as int) && n < 0x100_0000,
            read_agrees(
                r,
                old(self).tables().next(old(self).source.bytes(), block_num as int),
                old(self).source.reliable(),
            ),
    {
        let ghost t = self.tables();
        if let Err(e) = check_block_in_range(block_num, self.allocated_block_count) {
            return Err(e);
        }
        proof {
            positions_are_bounded(self.map.c(), block_num as int);
        }
        let base: u64 = self.map.compute_level0_backing_hash_block_number(block_num) * 0x1000
            + self.first_hash_table_address + block_num % 0xAA * 0x18;
        let offset: u64 = match self.top_level {
            Level::Zero => root_copy_offset(self.block_separation),
            Level::One => {
                assert((block_num as int) / 0xAA < t.top.len());
                status_copy_offset(self.top_table[(block_num / 0xAA) as usize])
            },
            Level::Two => {
                let k: usize = (block_num / 0x70E4) as usize;
                let i: usize = (block_num % 0xAA) as usize;
                assert(k < t.level1.len());
                assert(t.level1[k as int] == self.level1_status@[k as int]@);
                status_copy_offset(self.level1_status[k][i])
            },
        };
        let addr: u64 = base + offset;
        assert(addr == t.record_address(block_num as int));
        match self.source.read_at(addr + 0x14, 4) {
            Ok(v) => {
                proof {
                    crate::bytes::lemma_pow256();
                    assert(field(v@, 1, 3) =~= field(old(self).source.bytes(), addr + 0x15, 3));
                }
                Ok(get_be(v.as_slice(), 1, 3) as u32)
            },
            Err(e) => {
                assert(e == ReadError);
                Err(StfsReadError::Read(e))
            },
        }
    }

    /// Where block `block_num` stands.
    fn block_to_address(&self, block_num: u64) -> (r: Result<u64, StfsReadError>)
        requires
            self.wf(),
        ensures
            match r {
                Ok(a) => block_num < self.allocated_block_count && a == self.tables().g.data_address(
                    block_num as int,
                ) && a <= 0x4000_0000_0000,
                Err(e) => e == StfsReadError::IllegalBlock && block_num
                    >= self.allocated_block_count,
            },
    {
        if let Err(e) = check_block_in_range(block_num, self.allocated_block_count) {
            return Err(e);
        }
        proof {
            positions_are_bounded(self.map.c(), block_num as int);
        }
        Ok(
            self.map.compute_backing_data_block_number(block_num) * 0x1000
                + self.first_hash_table_address,
        )
    }

    fn read_file_listing(&mut self, first_block: u32, block_count: u16) -> (r: Result<
        Vec<RawEntry>,
        StfsReadError,
    >)
        requires
            old(self).wf(),
        ensures
            same_reader(old(self), final(self)),
            final(self).chain_cursor == old(self).chain_cursor,
            final(self).wf(),
            r matches Ok(e) ==> old(self).tables().listing(
                old(self).source.bytes(),
                first_block as int,
                block_count as nat,
                0,
            ) == Ok::<Seq<EntryModel>, StfsReadError>(entry_models(e@)),
            read_agrees(
                r,
                old(self).tables().listing(
                    old(self).source.bytes(),
                    first_block as int,
                    block_count as nat,
                    0,
                ),
                old(self).source.reliable(),
            ),
    {
        let ghost t = self.tables();
        let ghost bytes = self.source.bytes();
        let ghost goal = t.listing(bytes, first_block as int, block_count as nat, 0);
        let mut entries: Vec<RawEntry> = Vec::new();
        let mut block: u32 = first_block;
        let mut index: u16 = 0;
        let mut left: u16 = block_count;
        proof {
            assert(entry_models(entries@) =~= Seq::empty());
            if let Ok(s) = goal {
                assert(Seq::<EntryModel>::empty() + s =~= s);
            }
        }
        while left > 0
            invariant
                self.wf(),
                same_reader(old(self), self),
                self.chain_cursor == old(self).chain_cursor,
                t == old(self).tables(),
                bytes == old(self).source.bytes(),
                goal == t.listing(bytes, first_block as int, block_count as nat, 0),
                goal == (match t.listing(bytes, block as int, left as nat, index as int) {
                    Ok(s) => Ok::<Seq<EntryModel>, StfsReadError>(entry_models(entries@) + s),
                    Err(e) => Err::<Seq<EntryModel>, StfsReadError>(e),
                }),
            decreases left,
        {
            let addr: u64 = match self.block_to_address(block as u64) {
                Ok(a) => a,
                Err(e) => {
                    return Err(e);
                },
            };
            let data = match self.source.read_at(addr, 0x1000) {
                Ok(d) => d,
                Err(e) => {
                    assert(e == ReadError);
                    return Err(StfsReadError::Read(e));
                },
            };
            let ghost before = entry_models(entries@);
            let ghost here = block_entries(field(bytes, addr as int, 0x1000), index as int, 0x40);
            decode_listing_block(data.as_slice(), index, &mut entries);
            assert(self.wf());
            match self.next_block(block as u64) {
                Ok(n) => {
                    if n == END_OF_CHAIN {
                        return Ok(entries);
                    }
                    left = left - 1;
                    index = ((index as u32 + 0x40) % 0x1_0000) as u16;
                    block = n;
                    proof {
                        if let Ok(s) = t.listing(bytes, block as int, left as nat, index as int) {
                            assert(before + (here + s) =~= (before + here) + s);
                        }
                    }
                },
                Err(e) => {
                    return Err(e);
                },
            }
        }
        assert(entry_models(entries@) + Seq::<EntryModel>::empty() =~= entry_models(entries@));
        Ok(entries)
    }

    /// Path and size of each file, in listing order.
    pub fn file_entries(&self) -> (r: Vec<(String, u64)>)
        ensures
            r@.len() == self.files@.len(),
            forall|i: int|
                0 <= i < r@.len() ==> (#[trigger] r@[i]).0@ == self.files@[i].0@ && r@[i].1
                    == self.files@[i].2,
    {
        let mut r: Vec<(String, u64)> = Vec::new();
        let mut i: usize = 0;
        while i < self.files.len()
            invariant
                i <= self.files@.len(),
                r@.len() == i,
                forall|j: int|
                    0 <= j < i ==> (#[trigger] r@[j]).0@ == self.files@[j].0@ && r@[j].1
                        == self.files@[j].2,
            decreases self.files@.len() - i,
        {
            r.push((self.files[i].0.clone(), self.files[i].2 as u64));
            i = i + 1;
        }
        r
    }

    /// What the `n` bytes from `offset` of file `idx` are.
    pub open spec fn file_bytes(&self, idx: int, offset: int, n: int) -> Result<
        Seq<u8>,
        StfsReadError,
    > {
        if idx >= self.files@.len() {
            Err(StfsReadError::NoSuchFile)
        } else if offset + n > self.files@[idx].2 {
            Err(StfsReadError::PastEndOfFile)
        } else {
            self.tables().file_range(
                self.source.bytes(),
                self.files@[idx].1 as int,
                offset,
                n,
            )
        }
    }

    /// The `n` bytes of file `idx` from `offset_in_file`, along its block chain.
    pub fn read_file_range(&mut self, idx: usize, offset_in_file: u64, n: usize) -> (r: Result<
        Vec<u8>,
        StfsReadError,
    >)
        requires
            old(self).wf(),
        ensures
            final(self).wf(),
            same_reader(old(self), final(self)),
            r matches Ok(v) ==> old(self).file_bytes(
                idx as int,
                offset_in_file as int,
                n as int,
            ) == Ok::<Seq<u8>, StfsReadError>(v@),
            read_agrees(
                r,
                old(self).file_bytes(idx as int, offset_in_file as int, n as int),
                old(self).source.reliable(),
            ),
    {
        if idx >= self.files.len() {
            return Err(StfsReadError::NoSuchFile);
        }
        let start: u32 = self.files[idx].1;
        let file_size: u64 = self.files[idx].2 as u64;
        if offset_in_file > file_size || n as u64 > file_size - offset_in_file {
            return Err(StfsReadError::PastEndOfFile);
        }
        let ghost t = self.tables();
        let ghost bytes = self.source.bytes();
        let ghost s0 = start as int;
        let ghost goal = t.file_range(bytes, s0, offset_in_file as int, n as int);
        let mut block: u64 = start as u64;
        let mut block_pos: u64 = 0;
        if let Some((cached_idx, cached_block, cached_pos)) = self.chain_cursor {
            if cached_idx == idx && cached_pos <= offset_in_file {
                block = cached_block;
                block_pos = cached_pos;
            }
        }
        proof {
            lemma_chain_split(
                t,
                bytes,
                s0,
                (block_pos / 0x1000) as nat,
                (offset_in_file / 0x1000 - block_pos / 0x1000) as nat,
            );
        }
        while block_pos + BLOCK_SIZE <= offset_in_file
            invariant
                self.wf(),
                same_reader(old(self), self),
                self.chain_cursor == old(self).chain_cursor,
                t == old(self).tables(),
                bytes == old(self).source.bytes(),
                idx < old(self).files@.len(),
                s0 == old(self).files@[idx as int].1,
                goal == t.file_range(bytes, s0, offset_in_file as int, n as int),
                old(self).file_bytes(idx as int, offset_in_file as int, n as int) == goal,
                offset_in_file <= file_size <= 0xFFFF_FFFF,
                block_pos % 0x1000 == 0,
                block_pos <= offset_in_file,
                block < 0x100_0000,
                t.chain_from(bytes, s0, (block_pos / 0x1000) as nat) == Ok::<int, StfsReadError>(
                    block as int,
                ),
                t.chain_from(bytes, s0, (offset_in_file / 0x1000) as nat) == t.chain_from(
                    bytes,
                    block as int,
                    (offset_in_file / 0x1000 - block_pos / 0x1000) as nat,
                ),
            decreases offset_in_file - block_pos,
        {
            match self.next_block(block) {
                Ok(next) => {
                    if next == END_OF_CHAIN {
                        return Err(StfsReadError::ChainEnded);
                    }
                    proof {
                        lemma_chain_split(t, bytes, s0, (block_pos / 0x1000) as nat, 1);
                        reveal_with_fuel(Tables::chain_from, 2);
                        assert((block_pos + 0x1000) / 0x1000 == block_pos / 0x1000 + 1);
                    }
                    block = next as u64;
                    block_pos = block_pos + BLOCK_SIZE;
                },
                Err(e) => {
                    return Err(e);
                },
            }
        }
        assert(offset_in_file / 0x1000 == block_pos / 0x1000);
        let mut out: Vec<u8> = Vec::new();
        proof {
            if let Ok(s) = t.read_from(bytes, block as int, offset_in_file as int % 0x1000, n as int) {
                assert(out@ + s =~= s);
            }
        }
        while out.len() < n
            invariant
                self.wf(),
                same_reader(old(self), self),
                self.chain_cursor == old(self).chain_cursor,
                t == old(self).tables(),
                bytes == old(self).source.bytes(),
                idx < old(self).files@.len(),
                s0 == old(self).files@[idx as int].1,
                goal == t.file_range(bytes, s0, offset_in_file as int, n as int),
                old(self).file_bytes(idx as int, offset_in_file as int, n as int) == goal,
                file_size == old(self).files@[idx as int].2,
                offset_in_file + n <= file_size <= 0xFFFF_FFFF,
                out@.len() <= n,
                block_pos % 0x1000 == 0,
                block_pos <= offset_in_file + out@.len(),
                out@.len() < n ==> offset_in_file + out@.len() < block_pos + 0x1000,
                block < 0x100_0000,
                t.chain_from(bytes, s0, (block_pos / 0x1000) as nat) == Ok::<int, StfsReadError>(
                    block as int,
                ),
                goal == (match t.read_from(
                    bytes,
                    block as int,
                    offset_in_file + out@.len() - block_pos,
                    n - out@.len(),
                ) {
                    Ok(s) => Ok::<Seq<u8>, StfsReadError>(out@ + s),
                    Err(e) => Err::<Seq<u8>, StfsReadError>(e),
                }),
            decreases n - out@.len(),
        {
            let pos: u64 = offset_in_file + out.len() as u64 - block_pos;
            let addr: u64 = match self.block_to_address(block) {
                Ok(a) => a,
                Err(e) => {
                    return Err(e);
                },
            };
            let want: usize = n - out.len();
            let m: usize = if (want as u64) < BLOCK_SIZE - pos {
                want
            } else {
                (BLOCK_SIZE - pos) as usize
            };
            let piece = match self.source.read_at(addr + pos, m) {
                Ok(p) => p,
                Err(e) => {
                    assert(e == ReadError);
                    return Err(StfsReadError::Read(e));
                },
            };
            assert(self.wf());
            let ghost before = out@;
            crate::bytes::put_slice(&mut out, piece.as_slice());
            if out.len() < n {
                proof {
                    reveal_with_fuel(Tables::chain_from, 2);
                }
                match self.next_block(block) {
                    Ok(next) => {
                        if next == END_OF_CHAIN {
                            return Err(StfsReadError::ChainEnded);
                        }
                        proof {
                            lemma_chain_split(t, bytes, s0, (block_pos / 0x1000) as nat, 1);
                            assert((block_pos + 0x1000) / 0x1000 == block_pos / 0x1000 + 1);
                            if let Ok(s) = t.read_from(bytes, next as int, 0, n - out@.len()) {
                                assert(before + (piece@ + s) =~= out@ + s);
                            }
                        }
                        block = next as u64;
                        block_pos = block_pos + BLOCK_SIZE;
                    },
                    Err(e) => {
                        return Err(e);
                    },
                }
            } else {
                assert(before + piece@ =~= out@ + Seq::<u8>::empty());
            }
        }
        assert(out@ + Seq::<u8>::empty() =~= out@);
        self.chain_cursor = Some((idx, block, block_pos));
        Ok(out)
    }
}

/// Nothing but the position in the source differs.
pub open spec fn same_reader<S: ByteSource>(a: &StfsReader<S>, b: &StfsReader<S>) -> bool {
    &&& a.source.bytes() == b.source.bytes()
    &&& a.source.reliable() == b.source.reliable()
    &&& a.metadata == b.metadata
    &&& a.thumbnail == b.thumbnail
    &&& a.title_thumbnail == b.title_thumbnail
    &&& a.content_type == b.content_type
    &&& a.raw_content_type == b.raw_content_type
    &&& a.display_name == b.display_name
    &&& a.avatar_item_metadata == b.avatar_item_metadata
    &&& a.video_metadata == b.video_metadata
    &&& a.installer_metadata == b.installer_metadata
    &&& a.first_hash_table_address == b.first_hash_table_address
    &&& a.map == b.map
    &&& a.top_level == b.top_level
    &&& a.top_table == b.top_table
    &&& a.level1_status == b.level1_status
    &&& a.block_separation == b.block_separation
    &&& a.allocated_block_count == b.allocated_block_count
    &&& a.files == b.files
}

proof fn lemma_chain_split(t: Tables, bytes: Seq<u8>, b: int, i: nat, j: nat)
    ensures
        t.chain_from(bytes, b, i + j) == (match t.chain_from(bytes, b, i) {
            Ok(x) => t.chain_from(bytes, x, j),
            Err(e) => Err::<int, StfsReadError>(e),
        }),
    decreases i,
{
    if i > 0 {
        if let Ok(n) = t.next(bytes, b) {
            if n != END_OF_CHAIN {
                lemma_chain_split(t, bytes, n, (i - 1) as nat, j);
            }
        }
    }
}

proof fn lemma_metadata_unique(bytes: Seq<u8>, a: StfsMetadata, b: StfsMetadata)
    requires
        metadata_reads(header_of(bytes), a),
        metadata_reads(header_of(bytes), b),
    ensures
        package_of(bytes, a) == package_of(bytes, b),
{
}

proof fn lemma_level1_lens(bytes: Seq<u8>, g: Geometry, top: Seq<u8>, k: int)
    requires
        0 <= k,
    ensures
        level1_statuses(bytes, g, top, k) matches Some(groups) ==> groups.len() == k && forall|
            i: int,
        |
            0 <= i < k ==> (#[trigger] groups[i]).len() == 0xAA,
    decreases k,
{
    if k > 0 {
        lemma_level1_lens(bytes, g, top, k - 1);
    }
}

proof fn lemma_block_entries_blocks(b: Seq<u8>, first: int, k: int)
    requires
        k <= 0x40,
        b.len() == 0x1000,
    ensures
        forall|i: int|
            0 <= i < block_entries(b, first, k).len() ==> (#[trigger] block_entries(
                b,
                first,
                k,
            )[i]).starting_block_num < 0x100_0000,
    decreases k,
{
    if k > 0 {
        lemma_block_entries_blocks(b, first, k - 1);
        let slot = field(b, (k - 1) * 0x40, 0x40);
        assert(field(slot, 0x2F, 3).len() == 3);
        crate::bytes::lemma_le_bound(field(slot, 0x2F, 3));
        crate::bytes::lemma_pow256();
        let prev = block_entries(b, first, k - 1);
        let all = block_entries(b, first, k);
        assert forall|i: int| 0 <= i < all.len() implies (#[trigger] all[i]).starting_block_num
            < 0x100_0000 by {
            if i < prev.len() {
                assert(all[i] == prev[i]);
            }
        }
    }
}

proof fn lemma_listed_blocks(t: Tables, bytes: Seq<u8>, block: int, left: nat, index: int)
    requires
        t.wf(),
        0 <= block,
    ensures
        t.listing(bytes, block, left, index) matches Ok(e) ==> forall|i: int|
            0 <= i < e.len() ==> (#[trigger] e[i]).starting_block_num < 0x100_0000,
    decreases left,
{
    if left > 0 && block < t.g.allocated && t.g.data_address(block) + 0x1000 <= bytes.len() {
        let b = field(bytes, t.g.data_address(block), 0x1000);
        if let Ok(e) = t.listing(bytes, block, left, index) {
            positions_are_bounded(t.g.c(), block);
            lemma_block_entries_blocks(b, index, 0x40);
            if let Ok(n) = t.next(bytes, block) {
                lemma_listed_blocks(t, bytes, n, (left - 1) as nat, (index + 0x40) % 0x1_0000);
            }
        }
    }
}

proof fn lemma_files_blocks(entries: Seq<EntryModel>, k: int)
    requires
        0 <= k <= entries.len(),
        forall|i: int| 0 <= i < entries.len() ==> (#[trigger] entries[i]).starting_block_num
            < 0x100_0000,
    ensures
        listed_files(entries, k) matches Ok(f) ==> forall|i: int|
            0 <= i < f.len() ==> (#[trigger] f[i]).starting_block < 0x100_0000,
    decreases k,
{
    if k > 0 {
        lemma_files_blocks(entries, k - 1);
    }
}

fn root_copy_offset(block_separation: u8) -> (r: u64)
    ensures
        r == (if block_separation / 2 % 2 == 1 {
            0x1000int
        } else {
            0
        }),
{
    if block_separation / 2 % 2 == 1 {
        0x1000
    } else {
        0
    }
}

fn status_copy_offset(status: u8) -> (r: u64)
    ensures
        r == copy_offset(status),
{
    if status / 0x40 % 2 == 1 {
        0x1000
    } else {
        0
    }
}

/// Reads the status bytes of the top hash table.
fn load_top_table<S: ByteSource>(
    source: &mut S,
    first_hash_table_address: u64,
    block_separation: u8,
    allocated: u32,
    level: Level,
) -> (r: Result<Vec<u8>, ReadError>)
    requires
        old(source).valid(),
        first_hash_table_address <= 0xFFFF_F000,
        0 < allocated,
        level_for(allocated as int) == Some(level),
    ensures
        final(source).valid(),
        final(source).bytes() == old(source).bytes(),
        final(source).reliable() == old(source).reliable(),
        ({
            let g = Geometry {
                first_hash_table_address: first_hash_table_address as int,
                block_separation,
                allocated: allocated as int,
                level,
            };
            match r {
                Ok(v) => top_statuses(old(source).bytes(), g) == Some(v@),
                Err(_) => !old(source).reliable() || top_statuses(old(source).bytes(), g) is None,
            }
        }),
{
    let ghost g = Geometry {
        first_hash_table_address: first_hash_table_address as int,
        block_separation,
        allocated: allocated as int,
        level,
    };
    let ghost bytes = source.bytes();
    let map = BlockMap::new(block_separation);
    let (position, count): (u64, u64) = match level {
        Level::Zero => (0, allocated as u64),
        Level::One => (
            map.compute_level1_backing_hash_block_number(0),
            (allocated as u64 + 0xA9) / 0xAA,
        ),
        Level::Two => (
            map.compute_level2_backing_hash_block_number(),
            (allocated as u64 + 0x70E3) / 0x70E4,
        ),
    };
    proof {
        positions_are_bounded(map.c(), 0);
    }
    let addr: u64 = position * 0x1000 + first_hash_table_address + root_copy_offset(
        block_separation,
    );
    assert(addr == g.top_address() && count == g.top_entries());
    let table = match source.read_at(addr, count as usize * 0x18) {
        Ok(t) => t,
        Err(e) => {
            return Err(e);
        },
    };
    let mut r: Vec<u8> = Vec::new();
    let mut i: usize = 0;
    while i < count as usize
        invariant
            i <= count <= 0xAA,
            table@.len() == count * 0x18,
            r@.len() == i,
            forall|j: int| 0 <= j < i ==> r@[j] == table@[j * 0x18 + 0x14],
        decreases count - i,
    {
        r.push(table[i * 0x18 + 0x14]);
        i = i + 1;
    }
    assert(r@ =~= top_statuses(bytes, g)->0);
    Ok(r)
}

/// Reads the status bytes of every level-1 table below a level-2 table.
fn load_level1_status<S: ByteSource>(
    source: &mut S,
    first_hash_table_address: u64,
    block_separation: u8,
    allocated: u32,
    top: &[u8],
) -> (r: Result<Vec<Vec<u8>>, ReadError>)
    requires
        old(source).valid(),
        first_hash_table_address <= 0xFFFF_F000,
        level_for(allocated as int) == Some(Level::Two),
        top@.len() == ceil_div(allocated as int, 0x70E4),
    ensures
        final(source).valid(),
        final(source).bytes() == old(source).bytes(),
        final(source).reliable() == old(source).reliable(),
        ({
            let g = Geometry {
                first_hash_table_address: first_hash_table_address as int,
                block_separation,
                allocated: allocated as int,
                level: Level::Two,
            };
            let want = level1_statuses(old(source).bytes(), g, top@, top@.len() as int);
            match r {
                Ok(v) => want == Some(groups(v@)),
                Err(_) => !old(source).reliable() || want is None,
            }
        }),
{
    let ghost g = Geometry {
        first_hash_table_address: first_hash_table_address as int,
        block_separation,
        allocated: allocated as int,
        level: Level::Two,
    };
    let ghost bytes = source.bytes();
    let map = BlockMap::new(block_separation);
    let mut all: Vec<Vec<u8>> = Vec::new();
    let mut k: usize = 0;
    assert(groups(all@) =~= Seq::empty());
    while k < top.len()
        invariant
            k <= top@.len() <= 0xAA,
            source.valid(),
            source.bytes() == bytes,
            bytes == old(source).bytes(),
            source.reliable() == old(source).reliable(),
            first_hash_table_address <= 0xFFFF_F000,
            map.wf(),
            map.sex_shift == shift_of(block_separation),
            g == (Geometry {
                first_hash_table_address: first_hash_table_address as int,
                block_separation,
                allocated: allocated as int,
                level: Level::Two,
            }),
            level1_statuses(bytes, g, top@, k as int) == Some(groups(all@)),
        decreases top@.len() - k,
    {
        proof {
            positions_are_bounded(map.c(), k * 0x70E4);
        }
        let addr: u64 = map.compute_level1_backing_hash_block_number(k as u64 * 0x70E4) * 0x1000
            + first_hash_table_address + status_copy_offset(top[k]);
        assert(addr == level1_address(g, top@, k as int));
        let table = match source.read_at(addr, 0xAA * 0x18) {
            Ok(t) => t,
            Err(e) => {
                proof {
                    if source.reliable() {
                        assert(level1_statuses(bytes, g, top@, k + 1) is None);
                        lemma_level1_none(bytes, g, top@, k + 1, top@.len() as int);
                    }
                }
                return Err(e);
            },
        };
        let mut group: Vec<u8> = Vec::new();
        let mut i: usize = 0;
        while i < 0xAA
            invariant
                i <= 0xAA,
                table@.len() == 0xAA * 0x18,
                group@.len() == i,
                forall|j: int| 0 <= j < i ==> group@[j] == table@[j * 0x18 + 0x14],
            decreases 0xAA - i,
        {
            group.push(table[i * 0x18 + 0x14]);
            i = i + 1;
        }
        assert(group@ =~= level1_group(bytes, addr as int));
        let ghost before = all@;
        let ghost gv = group@;
        all.push(group);
        assert(groups(all@) =~= groups(before).push(gv));
        k = k + 1;
    }
    Ok(all)
}

/// A data block stands after the header.
proof fn lemma_address(t: Tables, b: int)
    requires
        0 <= b,
        0 <= t.g.first_hash_table_address,
    ensures
        t.g.data_address(b) >= 0,
{
    let c = t.g.c();
    assert(data_position(1, b) >= 0);
    assert(data_position(2, b) >= 0);
    assert(c == 1 || c == 2);
}

/// What is part of a range that can be read can be read itself.
proof fn lemma_part_of_read(
    t: Tables,
    bytes: Seq<u8>,
    b: int,
    pos: int,
    n: int,
    a: int,
    m: int,
)
    requires
        0 <= pos < 0x1000,
        0 <= a,
        0 < m,
        a + m <= n,
        0 <= b,
        0 <= t.g.first_hash_table_address,
        t.read_from(bytes, b, pos, n) is Ok,
    ensures
        ({
            let v = t.read_from(bytes, b, pos, n)->Ok_0;
            &&& v.len() == n
            &&& t.chain_from(bytes, b, ((pos + a) / 0x1000) as nat) matches Ok(nb)
                && t.read_from(bytes, nb, (pos + a) % 0x1000, m) == Ok::<Seq<u8>, StfsReadError>(
                v.subrange(a, a + m),
            )
        }),
    decreases n,
{
    let v = t.read_from(bytes, b, pos, n)->Ok_0;
    let room = 0x1000 - pos;
    let first = if n < room {
        n
    } else {
        room
    };
    let at = t.g.data_address(b) + pos;
    lemma_address(t, b);
    if n <= room {
        assert(v == field(bytes, at, n));
        assert(v.subrange(a, a + m) =~= field(bytes, at + a, m));
    } else {
        let nb = t.chain_from(bytes, b, 1)->Ok_0;
        let next = t.next(bytes, b)->Ok_0;
        assert(t.chain_from(bytes, next, 0) == Ok::<int, StfsReadError>(next));
        assert(nb == next);
        let rest = t.read_from(bytes, nb, 0, n - room)->Ok_0;
        assert(v == field(bytes, at, room) + rest);
        if pos + a < 0x1000 {
            if a + m <= room {
                lemma_part_of_read(t, bytes, nb, 0, n - room, 0, n - room);
                assert(v.subrange(a, a + m) =~= field(bytes, at + a, m));
            } else {
                let left = a + m - room;
                lemma_part_of_read(t, bytes, nb, 0, n - room, 0, left);
                assert(v.subrange(a, a + m) =~= field(bytes, at + a, room - a) + rest.subrange(
                    0,
                    left,
                ));
                assert(t.chain_from(bytes, nb, 0) == Ok::<int, StfsReadError>(nb));
            }
        } else {
            lemma_part_of_read(t, bytes, nb, 0, n - room, a - room, m);
            let k = ((a - room) / 0x1000) as nat;
            assert((pos + a) / 0x1000 == k + 1);
            assert((pos + a) % 0x1000 == (a - room) % 0x1000);
            assert(t.chain_from(bytes, b, k + 1) == t.chain_from(bytes, nb, k));
            assert(v.subrange(a, a + m) =~= rest.subrange(a - room, a - room + m));
        }
    }
}

proof fn lemma_chain_nonneg(t: Tables, bytes: Seq<u8>, b: int, steps: nat)
    requires
        0 <= b,
    ensures
        t.chain_from(bytes, b, steps) matches Ok(x) ==> x >= 0,
    decreases steps,
{
    if steps > 0 {
        if let Ok(n) = t.next(bytes, b) {
            lemma_chain_nonneg(t, bytes, n, (steps - 1) as nat);
        }
    }
}

/// What is part of a range of a file that can be read can be read itself.
pub proof fn part_of_range_reads(
    t: Tables,
    bytes: Seq<u8>,
    start: int,
    offset: int,
    n: int,
    a: int,
    m: int,
)
    requires
        0 <= offset,
        0 <= a,
        0 < m,
        a + m <= n,
        0 <= start,
        0 <= t.g.first_hash_table_address,
        t.file_range(bytes, start, offset, n) is Ok,
    ensures
        t.file_range(bytes, start, offset, n)->Ok_0.len() == n,
        t.file_range(bytes, start, offset + a, m) == Ok::<Seq<u8>, StfsReadError>(
            t.file_range(bytes, start, offset, n)->Ok_0.subrange(a, a + m),
        ),
{
    let i = (offset / 0x1000) as nat;
    let pos = offset % 0x1000;
    let b = t.chain_from(bytes, start, i)->Ok_0;
    lemma_chain_nonneg(t, bytes, start, i);
    lemma_part_of_read(t, bytes, b, pos, n, a, m);
    let k = ((pos + a) / 0x1000) as nat;
    lemma_chain_split(t, bytes, start, i, k);
    assert((offset + a) / 0x1000 == i + k);
    assert((offset + a) % 0x1000 == (pos + a) % 0x1000);
}

impl<S: ByteSource> StfsReader<S> {
    /// Byte `j` of the file that starts at block `start`; zero if it cannot be read.
    pub open spec fn file_byte(&self, start: int, j: int) -> u8 {
        match self.tables().file_range(self.source.bytes(), start, j, 1) {
            Ok(s) => s[0],
            Err(_) => 0,
        }
    }
}

impl<S: ByteSource> FileSource for StfsReader<S> {
    open spec fn paths(&self) -> Seq<Seq<char>> {
        self.files@.map_values(|f: (String, u32, u32, bool)| f.0@)
    }

    open spec fn contents(&self) -> Seq<Seq<u8>> {
        self.files@.map_values(
            |f: (String, u32, u32, bool)|
                Seq::new(f.2 as nat, |j: int| self.file_byte(f.1 as int, j)),
        )
    }

    open spec fn valid(&self) -> bool {
        self.wf()
    }

    open spec fn reliable(&self) -> bool {
        &&& self.source.reliable()
        &&& forall|i: int|
            0 <= i < self.files@.len() ==> self.tables().file_range(
                self.source.bytes(),
                (#[trigger] self.files@[i]).1 as int,
                0,
                self.files@[i].2 as int,
            ) is Ok
    }

    fn file_entries(&self) -> (r: Vec<(String, u64)>) {
        StfsReader::file_entries(self)
    }

    fn read_file_range(&mut self, idx: usize, offset_in_file: u64, n: usize) -> (r: Result<
        Vec<u8>,
        ReadError,
    >) {
        if n == 0 {
            if idx >= self.files.len() || offset_in_file > self.files[idx].2 as u64 {
                return Err(ReadError);
            }
            let none: Vec<u8> = Vec::new();
            assert(none@ =~= self.contents()[idx as int].subrange(
                offset_in_file as int,
                offset_in_file as int,
            ));
            return Ok(none);
        }
        let ghost t = self.tables();
        let ghost bytes = self.source.bytes();
        let r = StfsReader::read_file_range(self, idx, offset_in_file, n);
        proof {
            if idx < old(self).files@.len() && offset_in_file + n <= old(self).files@[idx as int].2 {
                let start = old(self).files@[idx as int].1 as int;
                let size = old(self).files@[idx as int].2 as int;
                let offset = offset_in_file as int;
                if t.file_range(bytes, start, 0, size) is Ok {
                    part_of_range_reads(t, bytes, start, 0, size, offset, n as int);
                }
                if let Ok(v) = t.file_range(bytes, start, offset, n as int) {
                    part_of_range_reads(t, bytes, start, offset, n as int, 0, n as int);
                    assert forall|j: int| 0 <= j < n implies v[j] == old(self).file_byte(
                        start,
                        offset + j,
                    ) by {
                        part_of_range_reads(t, bytes, start, offset, n as int, j, 1);
                    }
                    assert(v =~= old(self).contents()[idx as int].subrange(offset, offset + n));
                }
            }
            assert forall|i: int| 0 <= i < self.files@.len() implies #[trigger] self.contents()[i]
                == old(self).contents()[i] by {
                assert(self.contents()[i] =~= old(self).contents()[i]);
            }
            assert(self.contents() =~= old(self).contents());
        }
        match r {
            Ok(v) => Ok(v),
            Err(_) => Err(ReadError),
        }
    }
}

} // verus!
