//! An opened archive, its blocks and the contents of its files.
use crate::bytes::{be_val, copy_range, field, get_be, put_slice};
use crate::source::{ByteSource, FileSource, ReadError};
use crate::zar::format::{footer_reads, ZarFooter, FOOTER_MAGIC, FOOTER_SIZE, FOOTER_VERSION};
use crate::zar::read::{
    build_files, parse_tree, tree_files, tree_of_bytes, visit_children, walk_files, walk_start,
    walk_step, zar_files, zstd_decode, zstd_decoded, TreeNodeRaw, Walk, ZarFile, ZarReadError,
};
use vstd::prelude::*;

verus! {

/// Where sixteen blocks stand: the offset of the first, and each one's stored size less one.
pub struct RecordModel {
    pub base: int,
    pub sizes: Seq<u16>,
}

/// What the 40 bytes of an offset record say.
pub open spec fn record_of(b: Seq<u8>) -> RecordModel {
    RecordModel {
        base: be_val(field(b, 0, 8)) as int,
        sizes: Seq::new(16, |i: int| be_val(field(b, 8 + 2 * i, 2)) as u16),
    }
}

/// The records of an offset-record section.
pub open spec fn records_of(b: Seq<u8>) -> Seq<RecordModel> {
    Seq::new(b.len() / 40, |i: int| record_of(field(b, i * 40, 40)))
}

impl RecordModel {
    /// Where block `slot` of this record stands in the compressed data.
    pub open spec fn block_offset(self, slot: int) -> int
        decreases slot,
    {
        if slot <= 0 {
            self.base
        } else {
            self.block_offset(slot - 1) + self.sizes[slot - 1] + 1
        }
    }
}

/// What an archive holds.
pub struct ArchiveModel {
    pub data_offset: int,
    pub records: Seq<RecordModel>,
    pub files: Seq<ZarFile>,
}

/// The archive whose footer is `f`.
pub open spec fn archive_of(bytes: Seq<u8>, f: ZarFooter) -> Result<ArchiveModel, ZarReadError> {
    let n = bytes.len();
    if n <= 144 {
        Err(ZarReadError::TooSmall)
    } else if f.magic != FOOTER_MAGIC {
        Err(ZarReadError::BadMagic)
    } else if f.version != FOOTER_VERSION {
        Err(ZarReadError::UnsupportedVersion)
    } else if f.total_size != n {
        Err(ZarReadError::SizeMismatch)
    } else if f.compressed_data.offset + f.compressed_data.size > n || f.offset_records.offset
        + f.offset_records.size > n || f.names.offset + f.names.size > n || f.file_tree.offset
        + f.file_tree.size > n {
        Err(ZarReadError::SectionOutOfRange)
    } else if f.offset_records.size % 40 != 0 {
        Err(ZarReadError::RaggedOffsetRecords)
    } else if f.offset_records.size > usize::MAX || f.names.size > usize::MAX {
        Err(ZarReadError::SectionTooLarge)
    } else if f.file_tree.size % 16 != 0 {
        Err(ZarReadError::RaggedFileTree)
    } else if f.file_tree.size > usize::MAX {
        Err(ZarReadError::SectionTooLarge)
    } else {
        let records = field(bytes, f.offset_records.offset as int, f.offset_records.size as int);
        let names = field(bytes, f.names.offset as int, f.names.size as int);
        let tree = field(bytes, f.file_tree.offset as int, f.file_tree.size as int);
        match tree_files(names, tree_of_bytes(tree)) {
            Err(e) => Err(e),
            Ok(files) => Ok(
                ArchiveModel {
                    data_offset: f.compressed_data.offset as int,
                    records: records_of(records),
                    files,
                },
            ),
        }
    }
}

impl ArchiveModel {
    /// Block `k` of the uncompressed data. A block stored at full size is kept as it is.
    pub open spec fn block_of(self, bytes: Seq<u8>, k: int) -> Result<Seq<u8>, ZarReadError> {
        if k / 16 >= self.records.len() {
            Err(ZarReadError::BlockOutOfRange(k as u64))
        } else {
            let rec = self.records[k / 16];
            let at = self.data_offset + rec.block_offset(k % 16);
            let len = rec.sizes[k % 16] + 1;
            if at + len > bytes.len() {
                Err(ZarReadError::Read(ReadError))
            } else if len == 0x1_0000 {
                Ok(field(bytes, at, len))
            } else {
                match zstd_decoded(field(bytes, at, len)) {
                    Some(d) => if d.len() == 0x1_0000 {
                        Ok(d)
                    } else {
                        Err(ZarReadError::BadBlock(k as u64))
                    },
                    None => Err(ZarReadError::BadBlock(k as u64)),
                }
            }
        }
    }

    /// The `n` bytes of the uncompressed data from `at`; the error of the first block that
    /// cannot be had.
    pub open spec fn span(self, bytes: Seq<u8>, at: int, n: int) -> Result<Seq<u8>, ZarReadError>
        decreases n,
    {
        let pos = at % 0x1_0000;
        let m = if n < 0x1_0000 - pos {
            n
        } else {
            0x1_0000 - pos
        };
        if n <= 0 || m <= 0 {
            Ok(Seq::empty())
        } else {
            match self.block_of(bytes, at / 0x1_0000) {
                Err(e) => Err(e),
                Ok(block) => match self.span(bytes, at + m, n - m) {
                    Err(e) => Err(e),
                    Ok(rest) => Ok(block.subrange(pos, pos + m) + rest),
                },
            }
        }
    }

    /// Byte `at` of the uncompressed data; zero where its block cannot be had.
    pub open spec fn byte_at(self, bytes: Seq<u8>, at: int) -> u8 {
        match self.block_of(bytes, at / 0x1_0000) {
            Ok(block) => block[at % 0x1_0000],
            Err(_) => 0,
        }
    }

    /// The `n` bytes from `at`, zero where a block cannot be had.
    pub open spec fn bytes_at(self, bytes: Seq<u8>, at: int, n: int) -> Seq<u8> {
        Seq::new(n as nat, |j: int| self.byte_at(bytes, at + j))
    }

    /// Every block that `n` bytes from `at` fall in can be had.
    pub open spec fn has_span(self, bytes: Seq<u8>, at: int, n: int) -> bool {
        forall|j: int| 0 <= j < n ==> #[trigger] self.block_of(bytes, (at + j) / 0x1_0000) is Ok
    }
}

proof fn lemma_block_len(a: ArchiveModel, bytes: Seq<u8>, k: int)
    requires
        0 <= a.data_offset,
        0 <= k,
        forall|i: int| 0 <= i < a.records.len() ==> (#[trigger] a.records[i]).base >= 0,
    ensures
        a.block_of(bytes, k) matches Ok(b) ==> b.len() == 0x1_0000,
{
    if k / 16 < a.records.len() {
        lemma_block_offset_bounds(a.records[k / 16], k % 16);
    }
}

proof fn lemma_block_offset_bounds(r: RecordModel, slot: int)
    requires
        r.base >= 0,
    ensures
        r.base <= r.block_offset(slot),
        slot >= 0 ==> r.block_offset(slot) <= r.base + slot * 0x1_0000,
    decreases slot,
{
    if slot > 0 {
        lemma_block_offset_bounds(r, slot - 1);
    }
}

/// A span that can be read holds the bytes at its place, and it can be read exactly if all its
/// blocks can be had.
pub proof fn span_is_bytes(a: ArchiveModel, bytes: Seq<u8>, at: int, n: int)
    requires
        0 <= a.data_offset,
        0 <= at,
        0 <= n,
        forall|i: int| 0 <= i < a.records.len() ==> (#[trigger] a.records[i]).base >= 0,
    ensures
        a.span(bytes, at, n) matches Ok(s) ==> s == a.bytes_at(bytes, at, n),
        a.has_span(bytes, at, n) ==> a.span(bytes, at, n) is Ok,
    decreases n,
{
    let pos = at % 0x1_0000;
    let m = if n < 0x1_0000 - pos {
        n
    } else {
        0x1_0000 - pos
    };
    if n > 0 {
        span_is_bytes(a, bytes, at + m, n - m);
        lemma_block_len(a, bytes, at / 0x1_0000);
        if let Ok(s) = a.span(bytes, at, n) {
            assert(s =~= a.bytes_at(bytes, at, n)) by {
                let rest = a.bytes_at(bytes, at + m, n - m);
                assert forall|j: int| 0 <= j < n implies s[j] == a.byte_at(bytes, at + j) by {
                    if j < m {
                        assert((at + j) / 0x1_0000 == at / 0x1_0000);
                        assert((at + j) % 0x1_0000 == pos + j);
                    } else {
                        assert(s[j] == rest[j - m]);
                        assert(at + m + (j - m) == at + j);
                    }
                }
            }
        }
        if a.has_span(bytes, at, n) {
            assert(a.block_of(bytes, (at + 0) / 0x1_0000) is Ok);
            assert forall|j: int| 0 <= j < n - m implies #[trigger] a.block_of(
                bytes,
                (at + m + j) / 0x1_0000,
            ) is Ok by {
                assert(at + m + j == at + (m + j));
            }
        }
    } else {
        assert(a.bytes_at(bytes, at, n) =~= Seq::empty());
    }
}

proof fn lemma_visit_keeps_bounds(
    names: Seq<u8>,
    entries: Seq<TreeNodeRaw>,
    i: int,
    end: int,
    prefix: Seq<char>,
    w: Walk,
)
    requires
        small_entries(entries),
        small_files(w.files),
    ensures
        visit_children(names, entries, i, end, prefix, w) matches Ok(x) ==> small_files(x.files),
    decreases end - i,
{
    if 0 <= i < end && i < entries.len() {
        match entries[i] {
            TreeNodeRaw::File { name_offset, offset, size } => {
                if let Ok(name) = crate::zar::read::name_at(names, name_offset as int) {
                    lemma_visit_keeps_bounds(
                        names,
                        entries,
                        i + 1,
                        end,
                        prefix,
                        Walk {
                            files: w.files.push(
                                ZarFile {
                                    path: crate::zar::read::child_path(prefix, name),
                                    offset,
                                    size,
                                },
                            ),
                            ..w
                        },
                    );
                }
            },
            TreeNodeRaw::Dir { name_offset, .. } => {
                if let Ok(name) = crate::zar::read::name_at(names, name_offset as int) {
                    lemma_visit_keeps_bounds(
                        names,
                        entries,
                        i + 1,
                        end,
                        prefix,
                        Walk {
                            queue: w.queue.push((i, crate::zar::read::child_path(prefix, name))),
                            visited: w.visited.insert(i),
                            ..w
                        },
                    );
                }
            },
        }
    }
}

/// Offsets and sizes are 48-bit numbers.
pub open spec fn small_files(files: Seq<ZarFile>) -> bool {
    forall|i: int|
        0 <= i < files.len() ==> (#[trigger] files[i]).offset < 0x1_0000_0000_0000 && files[i].size
            < 0x1_0000_0000_0000
}

spec fn small_entries(entries: Seq<TreeNodeRaw>) -> bool {
    forall|i: int|
        0 <= i < entries.len() ==> ((#[trigger] entries[i]) matches TreeNodeRaw::File {
            offset,
            size,
            ..
        } ==> offset < 0x1_0000_0000_0000 && size < 0x1_0000_0000_0000)
}

proof fn lemma_walk_keeps_bounds(names: Seq<u8>, entries: Seq<TreeNodeRaw>, w: Walk, steps: nat)
    requires
        small_entries(entries),
        small_files(w.files),
    ensures
        walk_files(names, entries, w, steps) matches Ok(f) ==> small_files(f),
    decreases steps,
{
    if w.queue.len() > 0 && steps > 0 {
        let (idx, prefix) = w.queue[0];
        let rest = Walk { queue: w.queue.drop_first(), ..w };
        if let TreeNodeRaw::Dir { node_start_index, count, .. } = entries[idx] {
            lemma_visit_keeps_bounds(
                names,
                entries,
                node_start_index as int,
                node_start_index + count,
                prefix,
                rest,
            );
        }
        if let Ok(next) = walk_step(names, entries, w) {
            lemma_walk_keeps_bounds(names, entries, next, (steps - 1) as nat);
        }
    }
}

proof fn lemma_tree_is_small(names: Seq<u8>, tree: Seq<u8>)
    ensures
        tree_files(names, tree_of_bytes(tree)) matches Ok(f) ==> small_files(f),
{
    let entries = tree_of_bytes(tree);
    assert forall|i: int| 0 <= i < entries.len() implies ((
    #[trigger] entries[i]) matches TreeNodeRaw::File { offset, size, .. } ==> offset
        < 0x1_0000_0000_0000 && size < 0x1_0000_0000_0000) by {
        let b = field(tree, i * 16, 16);
        assert(b.len() == 16);
        crate::bytes::lemma_be_bound(field(b, 4, 4));
        crate::bytes::lemma_be_bound(field(b, 8, 4));
        crate::bytes::lemma_be_bound(field(b, 12, 4));
        crate::bytes::lemma_pow256();
    }
    lemma_walk_keeps_bounds(names, entries, walk_start(), entries.len());
}

/// One offset record.
pub struct ReadOffsetRecord {
    pub base_offset: u64,
    /// Stored size less one, per block.
    pub sizes: Vec<u16>,
}

impl ReadOffsetRecord {
    pub open spec fn model(self) -> RecordModel {
        RecordModel { base: self.base_offset as int, sizes: self.sizes@ }
    }
}

pub open spec fn record_models(r: Seq<ReadOffsetRecord>) -> Seq<RecordModel> {
    r.map_values(|x: ReadOffsetRecord| x.model())
}

/// Parses an offset-record section.
pub fn parse_offset_records(bytes: &[u8]) -> (r: Vec<ReadOffsetRecord>)
    ensures
        record_models(r@) == records_of(bytes@),
{
    let n: usize = bytes.len() / 40;
    let mut r: Vec<ReadOffsetRecord> = Vec::new();
    let mut i: usize = 0;
    proof {
        crate::bytes::lemma_pow256();
    }
    while i < n
        invariant
            i <= n,
            n == bytes@.len() / 40,
            bytes@.len() <= usize::MAX,
            crate::bytes::pow256(2) == 0x1_0000,
            r@.len() == i,
            forall|j: int|
                0 <= j < i ==> (#[trigger] r@[j]).model() == record_of(field(bytes@, j * 40, 40)),
        decreases n - i,
    {
        let at: usize = i * 40;
        let ghost b = field(bytes@, at as int, 40);
        let mut sizes: Vec<u16> = Vec::new();
        let mut k: usize = 0;
        while k < 16
            invariant
                k <= 16,
                at + 40 <= bytes@.len() <= usize::MAX,
                b == field(bytes@, at as int, 40),
                crate::bytes::pow256(2) == 0x1_0000,
                sizes@.len() == k,
                forall|j: int| 0 <= j < k ==> sizes@[j] == be_val(field(b, 8 + 2 * j, 2)),
            decreases 16 - k,
        {
            assert(field(b, 8 + 2 * k, 2) =~= field(bytes@, at + 8 + 2 * k, 2));
            sizes.push(get_be(bytes, at + 8 + 2 * k, 2) as u16);
            k = k + 1;
        }
        assert(field(b, 0, 8) =~= field(bytes@, at as int, 8));
        let rec = ReadOffsetRecord { base_offset: get_be(bytes, at, 8), sizes };
        assert(rec.sizes@ =~= record_of(b).sizes);
        r.push(rec);
        i = i + 1;
    }
    assert(record_models(r@) =~= records_of(bytes@));
    r
}

/// An opened archive. No file data is decompressed until it is read.
pub struct ZarArchiveReader<S: ByteSource> {
    pub source: S,
    pub compressed_data_offset: u64,
    pub offset_records: Vec<ReadOffsetRecord>,
    /// Path, place in the uncompressed data and size of each file.
    pub files: Vec<(String, u64, u64)>,
    /// The block that was decoded last.
    pub cached_block: Option<(u64, Vec<u8>)>,
}

/// The last 144 bytes.
pub open spec fn footer_region(bytes: Seq<u8>) -> Seq<u8> {
    bytes.subrange(bytes.len() - 144, bytes.len() as int)
}

/// `r` is what opening an archive comes to.
pub open spec fn is_opened<S: ByteSource>(
    source: S,
    r: Result<ZarArchiveReader<S>, ZarReadError>,
) -> bool {
    match r {
        Ok(a) => {
            &&& a.wf()
            &&& a.source.bytes() == source.bytes()
            &&& a.source.reliable() == source.reliable()
            &&& a.cached_block is None
            &&& exists|f: ZarFooter|
                footer_reads(footer_region(source.bytes()), f) && #[trigger] archive_of(
                    source.bytes(),
                    f,
                ) == Ok::<ArchiveModel, ZarReadError>(a.model())
        },
        Err(e) => (e is Read && !source.reliable()) || (e is TooSmall
            && source.bytes().len() <= 144) || exists|f: ZarFooter|
            footer_reads(footer_region(source.bytes()), f) && #[trigger] archive_of(
                source.bytes(),
                f,
            ) == Err::<ArchiveModel, ZarReadError>(e),
    }
}

impl<S: ByteSource> ZarArchiveReader<S> {
    pub open spec fn model(&self) -> ArchiveModel {
        ArchiveModel {
            data_offset: self.compressed_data_offset as int,
            records: record_models(self.offset_records@),
            files: zar_files(self.files@),
        }
    }

    pub open spec fn wf(&self) -> bool {
        &&& self.source.valid()
        &&& forall|i: int|
            0 <= i < self.offset_records@.len() ==> (
            #[trigger] self.offset_records@[i]).sizes@.len() == 16
        &&& forall|i: int|
            0 <= i < self.files@.len() ==> (#[trigger] self.files@[i]).1 < 0x1_0000_0000_0000
                && self.files@[i].2 < 0x1_0000_0000_0000
        &&& self.cached_block matches Some((k, block)) ==> self.model().block_of(
            self.source.bytes(),
            k as int,
        ) == Ok::<Seq<u8>, ZarReadError>(block@)
    }

    /// Nothing but the position in the source and the cached block differs.
    pub open spec fn same_archive(&self, other: &Self) -> bool {
        &&& self.source.bytes() == other.source.bytes()
        &&& self.source.reliable() == other.source.reliable()
        &&& self.compressed_data_offset == other.compressed_data_offset
        &&& self.offset_records == other.offset_records
        &&& self.files == other.files
    }

    /// Opens an archive: checks its footer, then reads offset records, names and file tree.
    pub fn open(source: S) -> (r: Result<ZarArchiveReader<S>, ZarReadError>)
        requires
            source.valid(),
        ensures
            is_opened(source, r),
    {
        let mut source = source;
        let ghost bytes = source.bytes();
        let size: u64 = source.size();
        if size <= FOOTER_SIZE as u64 {
            return Err(ZarReadError::TooSmall);
        }
        let region = match source.read_at(size - FOOTER_SIZE as u64, FOOTER_SIZE) {
            Ok(b) => b,
            Err(e) => {
                return Err(ZarReadError::Read(e));
            },
        };
        assert(region@ =~= footer_region(bytes));
        let f = match ZarFooter::read(region.as_slice()) {
            Some(f) => f,
            None => {
                return Err(ZarReadError::TooSmall);
            },
        };
        let ghost whole = archive_of(bytes, f);
        assert(footer_reads(footer_region(bytes), f));
        if f.magic != FOOTER_MAGIC {
            return Err(ZarReadError::BadMagic);
        }
        if f.version != FOOTER_VERSION {
            return Err(ZarReadError::UnsupportedVersion);
        }
        if f.total_size != size {
            return Err(ZarReadError::SizeMismatch);
        }
        if !f.compressed_data.in_range(size) || !f.offset_records.in_range(size)
            || !f.names.in_range(size) || !f.file_tree.in_range(size) {
            return Err(ZarReadError::SectionOutOfRange);
        }
        if f.offset_records.size % 40 != 0 {
            return Err(ZarReadError::RaggedOffsetRecords);
        }
        if f.offset_records.size > usize::MAX as u64 || f.names.size > usize::MAX as u64 {
            return Err(ZarReadError::SectionTooLarge);
        }
        if f.file_tree.size % 16 != 0 {
            return Err(ZarReadError::RaggedFileTree);
        }
        if f.file_tree.size > usize::MAX as u64 {
            return Err(ZarReadError::SectionTooLarge);
        }
        let record_bytes = match source.read_at(
            f.offset_records.offset,
            f.offset_records.size as usize,
        ) {
            Ok(b) => b,
            Err(e) => {
                return Err(ZarReadError::Read(e));
            },
        };
        let name_table = match source.read_at(f.names.offset, f.names.size as usize) {
            Ok(b) => b,
            Err(e) => {
                return Err(ZarReadError::Read(e));
            },
        };
        let tree_bytes = match source.read_at(f.file_tree.offset, f.file_tree.size as usize) {
            Ok(b) => b,
            Err(e) => {
                return Err(ZarReadError::Read(e));
            },
        };
        let offset_records = parse_offset_records(record_bytes.as_slice());
        let entries = parse_tree(tree_bytes.as_slice());
        match build_files(name_table.as_slice(), entries.as_slice()) {
            Ok(files) => {
                proof {
                    lemma_tree_is_small(name_table@, tree_bytes@);
                    assert forall|i: int| 0 <= i < files@.len() implies (#[trigger] files@[i]).1
                        < 0x1_0000_0000_0000 && files@[i].2 < 0x1_0000_0000_0000 by {
                        assert(zar_files(files@)[i].offset == files@[i].1);
                        assert(zar_files(files@)[i].size == files@[i].2);
                    }
                    assert forall|i: int| 0 <= i < offset_records@.len() implies (
                    #[trigger] offset_records@[i]).sizes@.len() == 16 by {
                        assert(record_models(offset_records@)[i] == offset_records@[i].model());
                        assert(records_of(record_bytes@).len() == offset_records@.len());
                        assert(records_of(record_bytes@)[i].sizes.len() == 16);
                    }
                }
                let a = ZarArchiveReader {
                    source,
                    compressed_data_offset: f.compressed_data.offset,
                    offset_records,
                    files,
                    cached_block: None,
                };
                assert(archive_of(bytes, f) == Ok::<ArchiveModel, ZarReadError>(a.model()));
                Ok(a)
            },
            Err(e) => Err(e),
        }
    }

    /// Path and size of each file, in the order of the tree walk.
    pub fn file_entries(&self) -> (r: Vec<(String, u64)>)
        ensures
            r@.len() == self.files@.len(),
            forall|i: int|
                0 <= i < r@.len() ==> (#[trigger] r@[i]).0@ == self.files@[i].0@ && r@[i].1
                    == self.files@[i].2,
    {
        let mut r: Vec<(String, u64)> = Vec::new();
        let mut i: usize = 0;
        while i < self.files.len()
            invariant
                i <= self.files@.len(),
                r@.len() == i,
                forall|j: int|
                    0 <= j < i ==> (#[trigger] r@[j]).0@ == self.files@[j].0@ && r@[j].1
                        == self.files@[j].2,
            decreases self.files@.len() - i,
        {
            r.push((self.files[i].0.clone(), self.files[i].2));
            i = i + 1;
        }
        r
    }

    /// Decodes block `k` into the cache.
    fn ensure_block(&mut self, k: u64) -> (r: Result<(), ZarReadError>)
        requires
            old(self).wf(),
        ensures
            final(self).wf(),
            final(self).same_archive(old(self)),
            match r {
                Ok(_) => final(self).cached_block matches Some((c, block)) && c == k,
                Err(e) => (e is Read && !old(self).source.reliable()) || old(
                    self,
                ).model().block_of(old(self).source.bytes(), k as int) == Err::<
                    Seq<u8>,
                    ZarReadError,
                >(e),
            },
    {
        let cached = match &self.cached_block {
            Some((c, _)) => *c == k,
            None => false,
        };
        if cached {
            return Ok(());
        }
        let ghost model = self.model();
        let ghost bytes = self.source.bytes();
        let record_idx: u64 = k / 16;
        let slot: usize = (k % 16) as usize;
        if record_idx >= self.offset_records.len() as u64 {
            return Err(ZarReadError::BlockOutOfRange(k));
        }
        let size: u64 = self.source.size();
        let record = &self.offset_records[record_idx as usize];
        let ghost rec = model.records[record_idx as int];
        assert(rec == record.model());
        let base: u64 = record.base_offset;
        proof {
            lemma_block_offset_bounds(rec, slot as int);
        }
        if base > size || self.compressed_data_offset > size {
            return Err(ZarReadError::Read(ReadError));
        }
        let mut skipped: u64 = 0;
        let mut i: usize = 0;
        while i < slot
            invariant
                i <= slot < 16,
                record.sizes@.len() == 16,
                rec == record.model(),
                base == record.base_offset,
                base + skipped == rec.block_offset(i as int),
                skipped <= i * 0x1_0000,
            decreases slot - i,
        {
            skipped = skipped + record.sizes[i] as u64 + 1;
            i = i + 1;
        }
        let stored_len: usize = record.sizes[slot] as usize + 1;
        let room: u64 = size - self.compressed_data_offset;
        if base > room || skipped > room - base || stored_len as u64 > room - base - skipped {
            return Err(ZarReadError::Read(ReadError));
        }
        let at: u64 = self.compressed_data_offset + base + skipped;
        let raw = match self.source.read_at(at, stored_len) {
            Ok(v) => v,
            Err(e) => {
                assert(e == ReadError);
                return Err(ZarReadError::Read(e));
            },
        };
        assert(raw@ == field(bytes, at as int, stored_len as int));
        if stored_len == 0x1_0000 {
            self.cached_block = Some((k, raw));
            return Ok(());
        }
        match zstd_decode(raw.as_slice()) {
            Some(d) => {
                if d.len() != 0x1_0000 {
                    return Err(ZarReadError::BadBlock(k));
                }
                self.cached_block = Some((k, d));
                Ok(())
            },
            None => Err(ZarReadError::BadBlock(k)),
        }
    }

    /// What the `n` bytes from `offset` of file `idx` are.
    pub open spec fn file_bytes(&self, idx: int, offset: int, n: int) -> Result<
        Seq<u8>,
        ZarReadError,
    > {
        if idx >= self.files@.len() {
            Err(ZarReadError::NoSuchFile)
        } else if offset + n > self.files@[idx].2 {
            Err(ZarReadError::PastEndOfFile)
        } else {
            self.model().span(self.source.bytes(), self.files@[idx].1 + offset, n)
        }
    }

    /// The `n` bytes of file `idx` from `offset_in_file`, out of the blocks they fall in.
    pub fn read_file_range(&mut self, idx: usize, offset_in_file: u64, n: usize) -> (r: Result<
        Vec<u8>,
        ZarReadError,
    >)
        requires
            old(self).wf(),
        ensures
            final(self).wf(),
            final(self).same_archive(old(self)),
            match r {
                Ok(v) => old(self).file_bytes(idx as int, offset_in_file as int, n as int) == Ok::<
                    Seq<u8>,
                    ZarReadError,
                >(v@),
                Err(e) => (e is Read && !old(self).source.reliable()) || old(self).file_bytes(
                    idx as int,
                    offset_in_file as int,
                    n as int,
                ) == Err::<Seq<u8>, ZarReadError>(e),
            },
    {
        if idx >= self.files.len() {
            return Err(ZarReadError::NoSuchFile);
        }
        let file_offset: u64 = self.files[idx].1;
        let file_size: u64 = self.files[idx].2;
        if offset_in_file > file_size || n as u64 > file_size - offset_in_file {
            return Err(ZarReadError::PastEndOfFile);
        }
        let start: u64 = file_offset + offset_in_file;
        let ghost model = self.model();
        let ghost bytes = self.source.bytes();
        let ghost goal = model.span(bytes, start as int, n as int);
        let mut out: Vec<u8> = Vec::new();
        proof {
            if let Ok(s) = goal {
                assert(out@ + s =~= s);
            }
        }
        while out.len() < n
            invariant
                self.wf(),
                self.same_archive(old(self)),
                model == old(self).model(),
                bytes == old(self).source.bytes(),
                start + n <= 0x2_0000_0000_0000,
                out@.len() <= n,
                old(self).file_bytes(idx as int, offset_in_file as int, n as int) == goal,
                goal == (match model.span(bytes, start + out@.len(), n - out@.len()) {
                    Ok(s) => Ok::<Seq<u8>, ZarReadError>(out@ + s),
                    Err(e) => Err::<Seq<u8>, ZarReadError>(e),
                }),
            decreases n - out@.len(),
        {
            let at: u64 = start + out.len() as u64;
            let k: u64 = at / 0x1_0000;
            let pos: usize = (at % 0x1_0000) as usize;
            if let Err(e) = self.ensure_block(k) {
                return Err(e);
            }
            match &self.cached_block {
                Some((_, block)) => {
                    let want: usize = n - out.len();
                    let m: usize = if want < 0x1_0000 - pos {
                        want
                    } else {
                        0x1_0000 - pos
                    };
                    proof {
                        assert(model.block_of(bytes, k as int) == Ok::<Seq<u8>, ZarReadError>(
                            block@,
                        ));
                        assert forall|i: int| 0 <= i < model.records.len() implies (
                        #[trigger] model.records[i]).base >= 0 by {
                            assert(model.records[i] == self.offset_records@[i].model());
                        }
                        lemma_block_len(model, bytes, k as int);
                    }
                    let piece = copy_range(block.as_slice(), pos, pos + m);
                    let ghost before = out@;
                    put_slice(&mut out, piece.as_slice());
                    proof {
                        if let Ok(s) = model.span(bytes, start + out@.len(), n - out@.len()) {
                            assert(before + (piece@ + s) =~= out@ + s);
                        }
                    }
                },
                None => {
                    assert(false);
                },
            }
        }
        assert(out@ + Seq::<u8>::empty() =~= out@);
        Ok(out)
    }
}

impl<S: ByteSource> FileSource for ZarArchiveReader<S> {
    open spec fn paths(&self) -> Seq<Seq<char>> {
        self.files@.map_values(|f: (String, u64, u64)| f.0@)
    }

    open spec fn contents(&self) -> Seq<Seq<u8>> {
        self.files@.map_values(
            |f: (String, u64, u64)|
                self.model().bytes_at(self.source.bytes(), f.1 as int, f.2 as int),
        )
    }

    open spec fn valid(&self) -> bool {
        self.wf()
    }

    open spec fn reliable(&self) -> bool {
        &&& self.source.reliable()
        &&& forall|i: int|
            0 <= i < self.files@.len() ==> self.model().has_span(
                self.source.bytes(),
                (#[trigger] self.files@[i]).1 as int,
                self.files@[i].2 as int,
            )
    }

    fn file_entries(&self) -> (r: Vec<(String, u64)>) {
        ZarArchiveReader::file_entries(self)
    }

    fn read_file_range(&mut self, idx: usize, offset_in_file: u64, n: usize) -> (r: Result<
        Vec<u8>,
        ReadError,
    >) {
        let ghost model = self.model();
        let ghost bytes = self.source.bytes();
        let r = ZarArchiveReader::read_file_range(self, idx, offset_in_file, n);
        proof {
            assert forall|i: int| 0 <= i < model.records.len() implies (
            #[trigger] model.records[i]).base >= 0 by {
                assert(model.records[i] == old(self).offset_records@[i].model());
            }
            if idx < old(self).files@.len() && offset_in_file + n <= old(self).files@[idx as int].2 {
                let start = old(self).files@[idx as int].1 + offset_in_file;
                span_is_bytes(model, bytes, start, n as int);
                if old(self).reliable() {
                    assert(model.has_span(
                        bytes,
                        old(self).files@[idx as int].1 as int,
                        old(self).files@[idx as int].2 as int,
                    ));
                    assert forall|j: int| 0 <= j < n implies #[trigger] model.block_of(
                        bytes,
                        (start + j) / 0x1_0000,
                    ) is Ok by {
                        let f = old(self).files@[idx as int].1 as int;
                        assert(start + j == f + (offset_in_file + j));
                        assert(model.block_of(bytes, (f + (offset_in_file + j)) / 0x1_0000) is Ok);
                    }
                }
                assert(model.bytes_at(bytes, start, n as int) =~= old(
                    self,
                ).contents()[idx as int].subrange(offset_in_file as int, offset_in_file + n));
            }
        }
        match r {
            Ok(v) => Ok(v),
            Err(_) => Err(ReadError),
        }
    }
}

} // verus!
