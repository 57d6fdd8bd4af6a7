//! Writing a package: what each physical block holds, and the session that emits them.
use crate::bytes::{
    be_bytes, copy_range, le_bytes, overwrite, put_slice, put_zeros, write_at, write_be, write_le,
    zeroed, zeros,
};
use crate::digest::sha1_of;
use crate::source::{FileSource, ReadError};
use crate::stfs::format::{
    AvatarItemMetadata, ContentType, InstallerMetadata, Level, StfsMetadata, VideoMetadata,
    BLOCK_SIZE, FILE_ENTRIES_PER_BLOCK, FILE_ENTRY_SIZE, NAME_LEN_OFFSET,
};
use crate::stfs::hash_tree::{
    level0_tables, level1_tables, record, record_table, top_table, views, BlockLink, HashTree,
    HashTreeBuilder, HashedBlock,
};
use crate::stfs::header::{
    build_header, header_image, is_header_metadata, opt_deref, write_license_entries,
    HeaderIdentity, TitleExecutionInfo, DEFAULT_BLOCK_SEPARATION,
};
use crate::stfs::layout::{
    entry_block_count, entry_blocks, file_list, planned_listing_holds_the_files, tree_of, PlanError,
    INSTALLER_HEADER_SIZE,
};
use crate::stfs::plan::{plan_error, PhysicalStep, PlannedEntry, StfsLayout};
use crate::utils::text::{hex_digits, push_hex};
use vstd::prelude::*;
use vstd::string::*;
use vstd::utf8::encode_utf8;

verus! {

broadcast use crate::bytes::group_fields;

/// The part of a name that fits a listing entry, in UTF-8.
pub open spec fn entry_name_bytes(name: Seq<char>) -> Seq<u8> {
    let b = encode_utf8(name);
    if b.len() <= 0x28 {
        b
    } else {
        b.take(0x28)
    }
}

/// The byte that holds a name's length and the entry's two flags. An empty name counts as one
/// byte.
pub open spec fn name_len_byte(e: PlannedEntry) -> int {
    let n = entry_name_bytes(e.name@).len() as int;
    (if n == 0 {
        1
    } else {
        n
    }) + (if e.is_contiguous {
        0x40int
    } else {
        0
    }) + (if e.is_directory {
        0x80int
    } else {
        0
    })
}

/// How many blocks a listing entry claims.
pub open spec fn claimed_blocks(e: PlannedEntry) -> int {
    if e.is_directory {
        0
    } else {
        entry_blocks(e.file_size as int)
    }
}

/// The 0x40 bytes of a listing entry.
pub open spec fn entry_bytes(e: PlannedEntry, timestamp: u32) -> Seq<u8> {
    let s = overwrite(zeros(0x40), 0, entry_name_bytes(e.name@));
    let s = overwrite(s, 0x28, be_bytes(name_len_byte(e) as nat, 1));
    let s = overwrite(s, 0x29, le_bytes(claimed_blocks(e) as nat, 3));
    let s = overwrite(s, 0x2C, le_bytes(claimed_blocks(e) as nat, 3));
    let s = overwrite(s, 0x2F, le_bytes(e.starting_block_num as nat, 3));
    let s = overwrite(s, 0x32, be_bytes(e.parent_index as nat, 2));
    let s = overwrite(s, 0x34, be_bytes(e.file_size as nat, 4));
    let s = overwrite(s, 0x38, be_bytes(timestamp as nat, 4));
    overwrite(s, 0x3C, be_bytes(timestamp as nat, 4))
}

/// Block `t` of the file listing.
pub open spec fn table_block(l: StfsLayout, t: int, timestamp: u32) -> Seq<u8> {
    Seq::new(
        0x1000,
        |i: int|
            if t * 0x40 + i / 0x40 < l.entries@.len() {
                entry_bytes(l.entries@[t * 0x40 + i / 0x40], timestamp)[i % 0x40]
            } else {
                0
            },
    )
}

/// The entry whose file data block `b` belongs to.
pub open spec fn owner(l: StfsLayout, b: int) -> int {
    choose|i: int| 0 <= i < l.entries@.len() && (#[trigger] l.entries@[i]).owns(b)
}

/// Data block `b`: the part of its file that falls there, padded with zeros.
pub open spec fn data_block(l: StfsLayout, contents: Seq<Seq<u8>>, b: int) -> Seq<u8> {
    let e = l.entries@[owner(l, b)];
    let from = (b - e.starting_block_num) * 0x1000;
    Seq::new(
        0x1000,
        |i: int|
            if from + i < e.file_size {
                contents[e.source_file_index->0 as int][from + i]
            } else {
                0
            },
    )
}

/// Block `b` of the package: the listing first, then the files.
pub open spec fn logical_block(
    l: StfsLayout,
    contents: Seq<Seq<u8>>,
    timestamp: u32,
    b: int,
) -> Seq<u8> {
    if b < l.file_table_block_count {
        table_block(l, b, timestamp)
    } else {
        data_block(l, contents, b)
    }
}

/// Every block of the package with its chain link, as a signed package hashes them.
pub open spec fn package_blocks(
    l: StfsLayout,
    contents: Seq<Seq<u8>>,
    timestamp: u32,
) -> Seq<HashedBlock> {
    Seq::new(
        l.total_blocks as nat,
        |b: int|
            HashedBlock {
                content: logical_block(l, contents, timestamp, b),
                link: BlockLink { status: 0x80, next_block: l.chain_next(b) },
            },
    )
}

/// A level-0 table with zero digests, as an unsigned package carries it.
pub open spec fn unsigned_table(l: StfsLayout, group_start: int, group_end: int) -> Seq<u8> {
    record_table(
        Seq::new(
            (group_end - group_start) as nat,
            |i: int| record(zeros(20), 0x80, l.chain_next(group_start + i)),
        ),
        0,
    )
}

/// The files that a plan takes from its source are there, at their planned sizes.
pub open spec fn sources_match(l: StfsLayout, contents: Seq<Seq<u8>>) -> bool {
    forall|i: int|
        0 <= i < l.entries@.len() ==> ((#[trigger] l.entries@[i]).source_file_index matches Some(
            s,
        ) ==> s < contents.len() && contents[s as int].len() == l.entries@[i].file_size)
}

/// One listing entry.
fn entry_record(e: &PlannedEntry, timestamp: u32) -> (r: Vec<u8>)
    ensures
        r@ == entry_bytes(*e, timestamp),
        r@.len() == 0x40,
{
    let name_bytes = e.name.as_str().as_bytes();
    let n: usize = if name_bytes.len() < NAME_LEN_OFFSET {
        name_bytes.len()
    } else {
        NAME_LEN_OFFSET
    };
    let name = copy_range(name_bytes, 0, n);
    assert(name@ =~= entry_name_bytes(e.name@));
    let len_byte: u64 = (if n == 0 {
        1
    } else {
        n as u64
    }) + (if e.is_contiguous {
        0x40u64
    } else {
        0
    }) + (if e.is_directory {
        0x80u64
    } else {
        0
    });
    let blocks: u32 = if e.is_directory {
        0
    } else {
        entry_block_count(e.file_size)
    };
    let mut s: Vec<u8> = zeroed(FILE_ENTRY_SIZE);
    write_at(&mut s, 0, name.as_slice());
    write_be(&mut s, 0x28, len_byte, 1);
    write_le(&mut s, 0x29, blocks as u64, 3);
    write_le(&mut s, 0x2C, blocks as u64, 3);
    write_le(&mut s, 0x2F, e.starting_block_num as u64, 3);
    write_be(&mut s, 0x32, e.parent_index as u64, 2);
    write_be(&mut s, 0x34, e.file_size as u64, 4);
    write_be(&mut s, 0x38, timestamp as u64, 4);
    write_be(&mut s, 0x3C, timestamp as u64, 4);
    s
}

/// Block `block_index` of the file listing.
pub fn file_table_block(l: &StfsLayout, block_index: u32, timestamp: u32) -> (r: Vec<u8>)
    requires
        l.wf(),
        block_index < l.file_table_block_count,
    ensures
        r@ == table_block(*l, block_index as int, timestamp),
{
    let start: usize = block_index as usize * FILE_ENTRIES_PER_BLOCK;
    let end: usize = if start + FILE_ENTRIES_PER_BLOCK < l.entries.len() {
        start + FILE_ENTRIES_PER_BLOCK
    } else {
        l.entries.len()
    };
    let mut buf: Vec<u8> = Vec::new();
    let mut i: usize = start;
    while i < end
        invariant
            start == block_index * 0x40,
            start <= i <= end <= l.entries@.len(),
            end <= start + 0x40,
            buf@ == table_block(*l, block_index as int, timestamp).take((i - start) * 0x40),
        decreases end - i,
    {
        let rec = entry_record(&l.entries[i], timestamp);
        let ghost before = buf@;
        put_slice(&mut buf, rec.as_slice());
        proof {
            let t = table_block(*l, block_index as int, timestamp);
            let at = (i - start) * 0x40;
            assert forall|j: int| 0 <= j < at + 0x40 implies buf@[j] == t[j] by {
                if j < at {
                    assert(buf@[j] == before[j]);
                } else {
                    assert(j / 0x40 == i - start);
                    assert(j % 0x40 == j - at);
                }
            }
            assert(buf@ =~= t.take((i + 1 - start) * 0x40));
        }
        i = i + 1;
    }
    put_zeros(&mut buf, 0x1000 - (end - start) * 0x40);
    proof {
        let t = table_block(*l, block_index as int, timestamp);
        assert forall|j: int| (end - start) * 0x40 <= j < 0x1000 implies t[j] == 0 by {
            assert(j / 0x40 >= end - start);
        }
        assert(buf@ =~= t);
    }
    buf
}

proof fn lemma_owner_unique(l: StfsLayout, b: int, i: int)
    requires
        l.wf(),
        0 <= i < l.entries@.len(),
        l.entries@[i].owns(b),
    ensures
        owner(l, b) == i,
{
    let j = owner(l, b);
    assert(0 <= j < l.entries@.len() && l.entries@[j].owns(b));
    if i < j {
        assert(!l.entries@[i].is_directory && !l.entries@[j].is_directory);
    } else if j < i {
        assert(!l.entries@[j].is_directory && !l.entries@[i].is_directory);
    }
}

/// Reads data block `block_num` from the file it belongs to.
fn read_data_block<F: FileSource>(l: &StfsLayout, files: &mut F, block_num: u32) -> (r: Result<
    Vec<u8>,
    ReadError,
>)
    requires
        l.wf(),
        old(files).valid(),
        sources_match(*l, old(files).contents()),
        l.file_table_block_count <= block_num < l.total_blocks,
    ensures
        final(files).valid(),
        final(files).contents() == old(files).contents(),
        final(files).paths() == old(files).paths(),
        final(files).reliable() == old(files).reliable(),
        r matches Ok(v) ==> v@ == data_block(*l, old(files).contents(), block_num as int),
        old(files).reliable() ==> r is Ok,
{
    assert(l.has_owner(block_num as int));
    match l.entry_for_data_block(block_num) {
        Some(idx) => {
            let e = &l.entries[idx];
            proof {
                lemma_owner_unique(*l, block_num as int, idx as int);
                assert(l.entries@[idx as int].source_file_index is Some);
            }
            match e.source_file_index {
                Some(file_idx) => {
                    let from: u64 = (block_num - e.starting_block_num) as u64 * BLOCK_SIZE;
                    let size: u64 = e.file_size as u64;
                    let remaining: u64 = size - from;
                    let to_read: usize = if remaining < BLOCK_SIZE {
                        remaining as usize
                    } else {
                        0x1000
                    };
                    let ghost contents = files.contents();
                    match files.read_file_range(file_idx, from, to_read) {
                        Ok(v) => {
                            let mut v = v;
                            put_zeros(&mut v, 0x1000 - to_read);
                            assert(v@ =~= data_block(*l, contents, block_num as int));
                            Ok(v)
                        },
                        Err(e) => Err(e),
                    }
                },
                None => Err(ReadError),
            }
        },
        None => Err(ReadError),
    }
}

/// The level-0 table over a group of blocks, with zero digests.
pub fn unsigned_level0_table(l: &StfsLayout, group_start: u32, group_end: u32) -> (r: Vec<u8>)
    requires
        l.wf(),
        group_start % 0xAA == 0,
        group_start <= group_end <= group_start + 0xAA,
        group_end <= l.total_blocks,
    ensures
        r@ == unsigned_table(*l, group_start as int, group_end as int),
{
    let ghost recs = Seq::new(
        (group_end - group_start) as nat,
        |i: int| record(zeros(20), 0x80, l.chain_next(group_start + i)),
    );
    let mut buf: Vec<u8> = Vec::new();
    let mut b: u32 = group_start;
    while b < group_end
        invariant
            l.wf(),
            group_start <= b <= group_end <= group_start + 0xAA,
            group_end <= l.total_blocks,
            recs == Seq::new(
                (group_end - group_start) as nat,
                |i: int| record(zeros(20), 0x80, l.chain_next(group_start + i)),
            ),
            buf@ == record_table(recs, 0).take((b - group_start) * 0x18),
        decreases group_end - b,
    {
        let next: u32 = l.next_in_chain(b);
        let ghost before = buf@;
        put_zeros(&mut buf, 20);
        buf.push(0x80);
        crate::bytes::put_be(&mut buf, next as u64, 3);
        proof {
            let t = record_table(recs, 0);
            let at = (b - group_start) * 0x18;
            let rec = record(zeros(20), 0x80, next);
            assert(buf@ =~= before + rec);
            assert(recs[b - group_start] == rec);
            assert forall|j: int| 0 <= j < at + 0x18 implies buf@[j] == t[j] by {
                if j < at {
                    assert(buf@[j] == before[j]);
                } else {
                    assert(j / 0x18 == b - group_start);
                    assert(j % 0x18 == j - at);
                }
            }
            assert(buf@ =~= t.take((b + 1 - group_start) * 0x18));
        }
        b = b + 1;
    }
    let used: usize = (group_end - group_start) as usize * 0x18;
    put_zeros(&mut buf, 0x1000 - used);
    proof {
        let t = record_table(recs, 0);
        assert forall|j: int| used <= j < 0x1000 implies t[j] == 0 by {
            assert(j / 0x18 >= group_end - group_start);
        }
        assert(buf@ =~= t);
    }
    buf
}

/// What a source that is itself a package says of its header. All none for other sources.
pub struct SourceHeader {
    pub content_type: Option<ContentType>,
    pub raw_content_type: Option<u32>,
    pub console_id: Option<[u8; 5]>,
    pub profile_id: Option<[u8; 8]>,
    pub device_id: Option<[u8; 20]>,
    pub online_creator: Option<[u8; 8]>,
    pub display_name: Option<String>,
    pub avatar_item_metadata: Option<AvatarItemMetadata>,
    pub video_metadata: Option<VideoMetadata>,
    pub installer_metadata: Option<InstallerMetadata>,
    pub license_entries: Option<[u8; 240]>,
}

/// Identity fields that the caller asks for.
#[derive(Clone, Copy)]
pub struct IdentityOverrides {
    pub console_id: Option<[u8; 5]>,
    pub profile_id: Option<[u8; 8]>,
    pub device_id: Option<[u8; 20]>,
    pub online_creator: Option<[u8; 8]>,
}

/// What a source's launch executable says.
#[derive(Clone, Copy)]
pub struct TitleInfo {
    pub content_type: ContentType,
    pub execution_info: TitleExecutionInfo,
}

/// The first of two that is there.
pub open spec fn either<T>(a: Option<T>, b: Option<T>) -> Option<T> {
    if a is Some {
        a
    } else {
        b
    }
}

fn either_of<T>(a: Option<T>, b: Option<T>) -> (r: Option<T>)
    ensures
        r == either(a, b),
{
    match a {
        Some(x) => Some(x),
        None => b,
    }
}

/// The array in `o`, or one of zeros.
pub open spec fn array_or_zeros<const N: usize>(o: Option<[u8; N]>) -> Seq<u8> {
    match o {
        Some(a) => a@,
        None => zeros(N as nat),
    }
}

fn or_zeros<const N: usize>(o: Option<[u8; N]>) -> (r: [u8; N])
    ensures
        r@ == array_or_zeros(o),
{
    match o {
        Some(a) => a,
        None => {
            let r: [u8; N] = vstd::array::array_fill_for_copy_types(0u8);
            assert(r@ =~= zeros(N as nat));
            r
        },
    }
}

/// The content type a package gets: the one asked for, else the source package's, else the
/// executable's. An executable is only looked at when no title id was asked for.
pub open spec fn resolved_content_type(
    asked: Option<ContentType>,
    original: Option<ContentType>,
    title_id_override: Option<u32>,
    probe: Option<TitleInfo>,
) -> Option<ContentType> {
    either(
        either(asked, original),
        if title_id_override is None && probe is Some {
            Some(probe->0.content_type)
        } else {
            None
        },
    )
}

pub fn resolve_content_type(
    asked: Option<ContentType>,
    original: Option<ContentType>,
    title_id_override: Option<u32>,
    probe: Option<TitleInfo>,
) -> (r: Option<ContentType>)
    ensures
        r == resolved_content_type(asked, original, title_id_override, probe),
{
    let detected = match title_id_override {
        Some(_) => None,
        None => match probe {
            Some(info) => Some(info.content_type),
            None => None,
        },
    };
    either_of(either_of(asked, original), detected)
}

/// Why a package cannot be written.
#[derive(Clone, Copy, Debug, PartialEq, Eq)]
pub enum StfsWriteError {
    /// The content type starts from an executable and none was found.
    NoLaunchExecutable,
    Plan(PlanError),
    /// Output was asked for before every block was hashed.
    HashingUnfinished,
    Read(ReadError),
}

impl StfsWriteError {
    pub open spec fn text(self) -> Seq<char> {
        match self {
            StfsWriteError::NoLaunchExecutable =>
                "stfs: failed to resolve launch executable (pass an explicit title_id to skip this for non-bootable content)"@,
            StfsWriteError::Plan(e) => e.text(),
            StfsWriteError::HashingUnfinished =>
                "stfs: next_chunk called before hashing finished - call hash_next_block() until it returns true first"@,
            StfsWriteError::Read(_) => "stfs: read failed"@,
        }
    }

    pub fn message(&self) -> (r: &'static str)
        ensures
            r@ == self.text(),
    {
        match *self {
            StfsWriteError::NoLaunchExecutable =>
                "stfs: failed to resolve launch executable (pass an explicit title_id to skip this for non-bootable content)",
            StfsWriteError::Plan(e) => e.message(),
            StfsWriteError::HashingUnfinished =>
                "stfs: next_chunk called before hashing finished - call hash_next_block() until it returns true first",
            StfsWriteError::Read(_) => "stfs: read failed",
        }
    }
}

#[derive(Clone, Copy, Debug, PartialEq, Eq, Structural)]
pub enum WritePhase {
    Header,
    Body,
    Done,
}

/// Emits a package block by block. A signed session first hashes every block.
pub struct StfsWriteSession<F: FileSource> {
    pub layout: StfsLayout,
    pub files: F,
    pub display_name: Option<String>,
    pub title_id: u32,
    pub execution_info: Option<TitleExecutionInfo>,
    pub content_type: u32,
    pub console_id: [u8; 5],
    pub profile_id: [u8; 8],
    pub device_id: [u8; 20],
    pub online_creator: [u8; 8],
    pub license_entries: [u8; 240],
    pub avatar_item_metadata: Option<AvatarItemMetadata>,
    pub video_metadata: Option<VideoMetadata>,
    pub installer_metadata: Option<InstallerMetadata>,
    pub created_timestamp: u32,
    pub output_name: String,
    pub phase: WritePhase,
    pub physical_cursor: u64,
    pub block_num: u32,
    pub signed: bool,
    pub hasher: Option<HashTreeBuilder>,
    pub hash_tree: Option<HashTree>,
    pub next_hash_block: u32,
    pub hashing_done: bool,
}

pub open spec fn opt_text(o: Option<String>) -> Option<Seq<char>> {
    match o {
        Some(s) => Some(s@),
        None => None,
    }
}

/// What a call for the next piece of the output makes of session `a`: session `b` and the
/// result `r`.
pub open spec fn chunk_step<F: FileSource>(
    a: StfsWriteSession<F>,
    b: StfsWriteSession<F>,
    max_bytes: usize,
    r: Result<Option<Vec<u8>>, StfsWriteError>,
) -> bool {
    &&& b.wf()
    &&& b.same_package(&a)
    &&& b.hashing_done == a.hashing_done
    &&& b.next_hash_block == a.next_hash_block
    &&& r == Err::<Option<Vec<u8>>, StfsWriteError>(StfsWriteError::HashingUnfinished)
        <==> !a.hashing_done
    &&& !a.hashing_done ==> b == a
    &&& a.hashing_done ==> match a.phase {
        WritePhase::Header => {
            &&& r matches Ok(Some(h)) && a.is_header(h@) && h@.len() == a.layout.first_hash_table_address
            &&& b.phase == WritePhase::Body
            &&& b.physical_cursor == a.physical_cursor
            &&& b.block_num == a.block_num
        },
        WritePhase::Body => if a.block_num >= a.layout.total_blocks {
            &&& r == Ok::<Option<Vec<u8>>, StfsWriteError>(None)
            &&& b.phase == WritePhase::Done
            &&& b.physical_cursor == a.physical_cursor
            &&& a.emitted() == a.package_size()
        } else {
            let step = a.layout.step_at(
                a.physical_cursor as int,
                a.block_num as int,
            );
            &&& b.phase == WritePhase::Body
            &&& b.physical_cursor == a.physical_cursor + 1
            &&& b.block_num == a.block_num + (if step is Data {
                1int
            } else {
                0
            })
            &&& match r {
                Ok(Some(c)) => c@ == a.block_content(step) && c@.len() == 0x1000,
                Ok(None) => false,
                Err(e) => e is Read && step is Data && !a.files.reliable(),
            }
        },
        WritePhase::Done => {
            &&& r == Ok::<Option<Vec<u8>>, StfsWriteError>(None)
            &&& b == a
        },
    }
    &&& r matches Ok(Some(c)) ==> b.emitted() == a.emitted() + c@.len()
}

/// What one step of preparation makes of session `a`: session `b` and the result `r`.
pub open spec fn hash_step<F: FileSource>(
    a: StfsWriteSession<F>,
    b: StfsWriteSession<F>,
    r: Result<bool, StfsWriteError>,
) -> bool {
    &&& b.wf()
    &&& b.same_package(&a)
    &&& b.phase == a.phase
    &&& b.physical_cursor == a.physical_cursor
    &&& b.block_num == a.block_num
    &&& match r {
        Ok(done) => {
            &&& done == b.hashing_done
            &&& a.hashing_done ==> done && b == a
            &&& !a.hashing_done ==> {
                &&& b.next_hash_block == a.next_hash_block + 1
                &&& done == (b.next_hash_block == a.layout.total_blocks)
            }
        },
        Err(e) => {
            &&& e is Read
            &&& !a.hashing_done
            &&& !a.files.reliable()
            &&& b.next_hash_block == a.next_hash_block
            &&& !b.hashing_done
        },
    }
}

/// `r` is what opening a session with these arguments comes to.
pub open spec fn is_opened<F: FileSource>(
    files: F,
    content_type_override: Option<ContentType>,
    display_name_override: Option<String>,
    title_id_override: Option<u32>,
    identity: IdentityOverrides,
    signed: bool,
    original: SourceHeader,
    probe: Option<TitleInfo>,
    needs_executable: bool,
    listed_name: Option<String>,
    created_timestamp: u32,
    r: Result<StfsWriteSession<F>, StfsWriteError>,
) -> bool {
    let list = Seq::new(
        files.paths().len(),
        |i: int| (files.paths()[i], files.contents()[i].len() as int),
    );
    let ct = resolved_content_type(
        content_type_override,
        original.content_type,
        title_id_override,
        probe,
    );
    let no_exe = title_id_override is None && probe is None && ct is Some
        && needs_executable;
    match r {
        Err(StfsWriteError::NoLaunchExecutable) => no_exe,
        Err(StfsWriteError::Plan(e)) => !no_exe && plan_error(list) == Some(e),
        Err(_) => false,
        Ok(s) => {
            &&& !no_exe && plan_error(list) is None
            &&& s.wf()
            &&& s.files == files
            &&& files.paths().len() == files.contents().len()
            &&& s.layout.is_plan_of(
                tree_of(list)->Ok_0,
                DEFAULT_BLOCK_SEPARATION,
                original.installer_metadata is Some,
            )
            &&& s.signed == signed
            &&& s.phase == WritePhase::Header
            &&& s.hashing_done == !signed
            &&& s.next_hash_block == 0
            &&& s.title_id == (match title_id_override {
                Some(id) => id,
                None => match probe {
                    Some(info) => info.execution_info.title_id,
                    None => 0,
                },
            })
            &&& s.execution_info == (if title_id_override is None && probe is Some {
                Some(probe->0.execution_info)
            } else {
                None
            })
            &&& s.content_type == (match ct {
                Some(c) => c.value(),
                None => match original.raw_content_type {
                    Some(v) => v,
                    None => ContentType::GamesOnDemand.value(),
                },
            })
            &&& opt_text(s.display_name) == either(
                either(
                    opt_text(display_name_override),
                    opt_text(original.display_name),
                ),
                opt_text(listed_name),
            )
            &&& s.console_id@ == array_or_zeros(
                either(identity.console_id, original.console_id),
            )
            &&& s.profile_id@ == array_or_zeros(
                either(identity.profile_id, original.profile_id),
            )
            &&& s.device_id@ == array_or_zeros(
                either(identity.device_id, original.device_id),
            )
            &&& s.online_creator@ == array_or_zeros(
                either(identity.online_creator, original.online_creator),
            )
            &&& s.license_entries@ == array_or_zeros(original.license_entries)
            &&& s.avatar_item_metadata == (if ct == Some(ContentType::AvatarItem) {
                original.avatar_item_metadata
            } else {
                None
            })
            &&& s.video_metadata == (if ct == Some(ContentType::Video) {
                original.video_metadata
            } else {
                None
            })
            &&& s.installer_metadata == original.installer_metadata
            &&& s.created_timestamp == created_timestamp
            &&& s.output_name@ == hex_digits(s.title_id as nat, 8)
        },
    }
}

impl<F: FileSource> StfsWriteSession<F> {
    /// All blocks of the package this session writes.
    pub open spec fn blocks(&self) -> Seq<HashedBlock> {
        package_blocks(self.layout, self.files.contents(), self.created_timestamp)
    }

    pub open spec fn wf(&self) -> bool {
        &&& self.layout.wf()
        &&& self.files.valid()
        &&& sources_match(self.layout, self.files.contents())
        &&& self.layout.on_course(self.physical_cursor as int, self.block_num as int)
        &&& self.phase == WritePhase::Header ==> self.physical_cursor == 0 && self.block_num == 0
        &&& self.phase == WritePhase::Done ==> self.block_num == self.layout.total_blocks
        &&& self.installer_metadata is Some ==> self.layout.header_size == INSTALLER_HEADER_SIZE
        &&& self.hashing_done == (self.hasher is None)
        &&& self.hash_tree is Some == (self.signed && self.hashing_done)
        &&& self.hash_tree matches Some(t) ==> t.is_tree_of(self.layout.top_level, self.blocks())
        &&& self.hasher matches Some(h) ==> {
            &&& self.signed
            &&& h.wf()
            &&& h.level() == self.layout.top_level
            &&& h.total() == self.layout.total_blocks
            &&& self.next_hash_block < self.layout.total_blocks
            &&& h.hashed() == self.blocks().take(self.next_hash_block as int)
        }
    }

    /// Nothing but the position of the session and what it has hashed differs.
    pub open spec fn same_package(&self, other: &Self) -> bool {
        &&& self.layout == other.layout
        &&& self.files.contents() == other.files.contents()
        &&& self.files.paths() == other.files.paths()
        &&& self.files.reliable() == other.files.reliable()
        &&& self.display_name == other.display_name
        &&& self.title_id == other.title_id
        &&& self.execution_info == other.execution_info
        &&& self.content_type == other.content_type
        &&& self.console_id == other.console_id
        &&& self.profile_id == other.profile_id
        &&& self.device_id == other.device_id
        &&& self.online_creator == other.online_creator
        &&& self.license_entries == other.license_entries
        &&& self.avatar_item_metadata == other.avatar_item_metadata
        &&& self.video_metadata == other.video_metadata
        &&& self.installer_metadata == other.installer_metadata
        &&& self.created_timestamp == other.created_timestamp
        &&& self.output_name == other.output_name
        &&& self.signed == other.signed
    }

    /// The digest in the volume descriptor: of the top table if the package is signed.
    pub open spec fn top_hash(&self) -> Seq<u8> {
        if self.signed {
            sha1_of(top_table(self.layout.top_level, self.blocks()))
        } else {
            zeros(20)
        }
    }

    pub open spec fn identity(&self) -> HeaderIdentity<'_> {
        HeaderIdentity {
            console_id: self.console_id,
            profile_id: self.profile_id,
            device_id: &self.device_id,
            online_creator: self.online_creator,
        }
    }

    /// `h` is the header of this package. A signed one keeps its license entries and is ready
    /// to be signed.
    pub open spec fn is_header(&self, h: Seq<u8>) -> bool {
        exists|m: StfsMetadata|
            #[trigger] is_header_metadata(
                m,
                self.layout,
                self.content_type,
                self.title_id,
                self.execution_info,
                self.identity(),
                self.top_hash(),
            ) && h == ({
                let s = header_image(
                    self.layout.first_hash_table_address as nat,
                    m,
                    opt_text(self.display_name),
                    self.avatar_item_metadata,
                    self.video_metadata,
                    self.installer_metadata,
                );
                if self.signed {
                    overwrite(s, 0x23C, self.license_entries@)
                } else {
                    s
                }
            })
    }

    /// What a physical block holds.
    pub open spec fn block_content(&self, step: PhysicalStep) -> Seq<u8> {
        match step {
            PhysicalStep::Data { block_num } => logical_block(
                self.layout,
                self.files.contents(),
                self.created_timestamp,
                block_num as int,
            ),
            PhysicalStep::HashLevel0 { group_start, group_end } => if !self.signed {
                unsigned_table(self.layout, group_start as int, group_end as int)
            } else if self.layout.top_level == Level::Zero {
                top_table(Level::Zero, self.blocks())
            } else {
                level0_tables(self.blocks())[group_start as int / 0xAA]
            },
            PhysicalStep::HashUpperLevel { at_top, group_index } => if !self.signed {
                zeros(0x1000)
            } else if at_top {
                top_table(self.layout.top_level, self.blocks())
            } else {
                level1_tables(self.blocks())[group_index as int]
            },
        }
    }

    /// How many bytes the session has emitted.
    pub open spec fn emitted(&self) -> int {
        if self.phase == WritePhase::Header {
            0
        } else {
            self.layout.first_hash_table_address + self.physical_cursor * 0x1000
        }
    }

    /// How many bytes the package has.
    pub open spec fn package_size(&self) -> int {
        self.layout.first_hash_table_address + self.layout.physical_blocks() * 0x1000
    }

    /// Plans a package of the files in `files`. Each header field is the one asked for, else
    /// the source package's, else what the executable or the title list says, else zero.
    pub fn open(
        files: F,
        content_type_override: Option<ContentType>,
        display_name_override: Option<String>,
        title_id_override: Option<u32>,
        identity: IdentityOverrides,
        signed: bool,
        original: SourceHeader,
        probe: Option<TitleInfo>,
        needs_executable: bool,
        listed_name: Option<String>,
        created_timestamp: u32,
    ) -> (r: Result<StfsWriteSession<F>, StfsWriteError>)
        requires
            files.valid(),
        ensures
            is_opened(
                files,
                content_type_override,
                display_name_override,
                title_id_override,
                identity,
                signed,
                original,
                probe,
                needs_executable,
                listed_name,
                created_timestamp,
                r,
            ),
    {
        let content_type = resolve_content_type(
            content_type_override,
            original.content_type,
            title_id_override,
            probe,
        );
        let content_type_u32: u32 = match content_type {
            Some(c) => c.as_u32(),
            None => match original.raw_content_type {
                Some(v) => v,
                None => ContentType::GamesOnDemand.as_u32(),
            },
        };
        let (title_id, execution_info): (u32, Option<TitleExecutionInfo>) = match title_id_override {
            Some(id) => (id, None),
            None => match probe {
                Some(info) => (info.execution_info.title_id, Some(info.execution_info)),
                None => {
                    if content_type.is_some() && needs_executable {
                        return Err(StfsWriteError::NoLaunchExecutable);
                    }
                    (0, None)
                },
            },
        };
        let display_name = either_of(
            either_of(display_name_override, original.display_name),
            listed_name,
        );
        let avatar_item_metadata = if content_type == Some(ContentType::AvatarItem) {
            original.avatar_item_metadata
        } else {
            None
        };
        let video_metadata = if content_type == Some(ContentType::Video) {
            original.video_metadata
        } else {
            None
        };
        let entries = files.file_entries();
        let ghost list = Seq::new(
            files.paths().len(),
            |i: int| (files.paths()[i], files.contents()[i].len() as int),
        );
        assert(file_list(entries@) =~= list);
        let layout = match StfsLayout::plan(
            entries.as_slice(),
            DEFAULT_BLOCK_SEPARATION,
            original.installer_metadata.is_some(),
        ) {
            Ok(l) => l,
            Err(e) => {
                return Err(StfsWriteError::Plan(e));
            },
        };
        proof {
            planned_listing_holds_the_files(list);
            let nodes = tree_of(list)->Ok_0;
            assert forall|i: int| 0 <= i < layout.entries@.len() implies ((
            #[trigger] layout.entries@[i]).source_file_index matches Some(s) ==> s
                < files.contents().len() && files.contents()[s as int].len()
                == layout.entries@[i].file_size) by {
                assert(nodes[i].source is Some ==> nodes[i].file_size == list[nodes[i].source->0].1);
            }
        }
        let mut output_name = String::new();
        push_hex(&mut output_name, title_id as u64, 8);
        assert(output_name@ =~= hex_digits(title_id as nat, 8));
        let hasher = if signed {
            Some(HashTreeBuilder::new(layout.top_level, layout.total_blocks))
        } else {
            None
        };
        let s = StfsWriteSession {
            layout,
            files,
            display_name,
            title_id,
            execution_info,
            content_type: content_type_u32,
            console_id: or_zeros(either_of(identity.console_id, original.console_id)),
            profile_id: or_zeros(either_of(identity.profile_id, original.profile_id)),
            device_id: or_zeros(either_of(identity.device_id, original.device_id)),
            online_creator: or_zeros(either_of(identity.online_creator, original.online_creator)),
            license_entries: or_zeros(original.license_entries),
            avatar_item_metadata,
            video_metadata,
            installer_metadata: original.installer_metadata,
            created_timestamp,
            output_name,
            phase: WritePhase::Header,
            physical_cursor: 0,
            block_num: 0,
            signed,
            hasher,
            hash_tree: None,
            next_hash_block: 0,
            hashing_done: !signed,
        };
        assert(s.blocks().take(0) =~= Seq::<HashedBlock>::empty());
        Ok(s)
    }

    /// Reads block `block_num` of the package.
    fn read_block(&mut self, block_num: u32) -> (r: Result<Vec<u8>, ReadError>)
        requires
            old(self).wf(),
            block_num < old(self).layout.total_blocks,
        ensures
            final(self).wf(),
            final(self).same_package(old(self)),
            final(self).phase == old(self).phase,
            final(self).physical_cursor == old(self).physical_cursor,
            final(self).block_num == old(self).block_num,
            final(self).hasher == old(self).hasher,
            final(self).hash_tree == old(self).hash_tree,
            final(self).hashing_done == old(self).hashing_done,
            final(self).next_hash_block == old(self).next_hash_block,
            r matches Ok(v) ==> v@ == logical_block(
                old(self).layout,
                old(self).files.contents(),
                old(self).created_timestamp,
                block_num as int,
            ),
            r is Err ==> !old(self).files.reliable(),
    {
        if block_num < self.layout.file_table_block_count as u32 {
            Ok(file_table_block(&self.layout, block_num, self.created_timestamp))
        } else {
            read_data_block(&self.layout, &mut self.files, block_num)
        }
    }

    /// Hashes the next block of a signed package; true once all are hashed. An unsigned
    /// package has nothing to hash.
    pub fn hash_next_block(&mut self) -> (r: Result<bool, StfsWriteError>)
        requires
            old(self).wf(),
        ensures
            hash_step(*old(self), *final(self), r),
    {
        if self.hashing_done {
            return Ok(true);
        }
        let b: u32 = self.next_hash_block;
        let content = match self.read_block(b) {
            Ok(v) => v,
            Err(e) => {
                return Err(StfsWriteError::Read(e));
            },
        };
        let ghost blocks = self.blocks();
        let link = BlockLink { status: 0x80, next_block: self.layout.next_in_chain(b) };
        match self.hasher.take() {
            Some(h) => {
                let mut h = h;
                h.hash_block(b, content.as_slice(), link);
                proof {
                    assert(blocks[b as int].content == content@);
                    assert(h.hashed() =~= blocks.take(b + 1));
                }
                self.next_hash_block = b + 1;
                if self.next_hash_block == self.layout.total_blocks {
                    assert(blocks.take(b + 1) =~= blocks);
                    self.hash_tree = Some(h.finish());
                    self.hashing_done = true;
                } else {
                    self.hasher = Some(h);
                }
                assert(self.blocks() == blocks);
                Ok(self.hashing_done)
            },
            None => Ok(true),
        }
    }

    /// The package's header.
    fn emit_header(&self) -> (r: Vec<u8>)
        requires
            self.wf(),
            self.hashing_done,
        ensures
            self.is_header(r@),
            r@.len() == self.layout.first_hash_table_address,
    {
        let top_hash: [u8; 20] = match &self.hash_tree {
            Some(t) => t.top_hash,
            None => [0u8; 20],
        };
        proof {
            if self.hash_tree is None {
                assert(top_hash@ =~= zeros(20));
            }
        }
        let name = match &self.display_name {
            Some(s) => Some(s.as_str()),
            None => None,
        };
        let identity = HeaderIdentity {
            console_id: self.console_id,
            profile_id: self.profile_id,
            device_id: &self.device_id,
            online_creator: self.online_creator,
        };
        let info = self.execution_info.as_ref();
        let installer = self.installer_metadata.as_ref();
        let mut h = build_header(
            &self.layout,
            self.content_type,
            self.title_id,
            info,
            name,
            self.avatar_item_metadata,
            self.video_metadata,
            installer,
            identity,
            &top_hash,
        );
        assert(opt_deref(info) == self.execution_info);
        assert(opt_deref(installer) == self.installer_metadata);
        assert(crate::stfs::header::opt_str(name) == opt_text(self.display_name));
        assert(identity == self.identity());
        assert(top_hash@ == self.top_hash());
        let ghost built = h@;
        let ghost m = choose|m: StfsMetadata|
            #[trigger] is_header_metadata(
                m,
                self.layout,
                self.content_type,
                self.title_id,
                self.execution_info,
                self.identity(),
                self.top_hash(),
            ) && built == header_image(
                self.layout.first_hash_table_address as nat,
                m,
                opt_text(self.display_name),
                self.avatar_item_metadata,
                self.video_metadata,
                self.installer_metadata,
            );
        if self.signed {
            write_license_entries(&mut h, &self.license_entries);
        }
        assert(is_header_metadata(
            m,
            self.layout,
            self.content_type,
            self.title_id,
            self.execution_info,
            self.identity(),
            self.top_hash(),
        ));
        h
    }

    /// The level-0 table over a group of blocks.
    fn emit_hash_level0(&self, group_start: u32, group_end: u32) -> (r: Vec<u8>)
        requires
            self.wf(),
            self.hashing_done,
            group_start % 0xAA == 0,
            group_start <= group_end <= group_start + 0xAA,
            group_start < self.layout.total_blocks,
            group_end <= self.layout.total_blocks,
        ensures
            r@ == self.block_content(PhysicalStep::HashLevel0 { group_start, group_end }),
    {
        match &self.hash_tree {
            Some(tree) => {
                if self.layout.top_level == Level::Zero {
                    copy_all(&tree.top)
                } else {
                    let idx: usize = (group_start / 0xAA) as usize;
                    proof {
                        assert(views(tree.level0@).len() == level0_tables(self.blocks()).len());
                        assert(views(tree.level0@)[idx as int] == tree.level0@[idx as int]@);
                    }
                    copy_all(&tree.level0[idx])
                }
            },
            None => unsigned_level0_table(&self.layout, group_start, group_end),
        }
    }

    /// A level-1 or level-2 table.
    fn emit_hash_upper_level(&self, at_top: bool, group_index: u32) -> (r: Vec<u8>)
        requires
            self.wf(),
            self.hashing_done,
            !at_top ==> self.layout.top_level == Level::Two && group_index * 0x70E4
                < self.layout.total_blocks,
        ensures
            r@ == self.block_content(PhysicalStep::HashUpperLevel { at_top, group_index }),
    {
        match &self.hash_tree {
            Some(tree) => {
                if at_top {
                    copy_all(&tree.top)
                } else {
                    proof {
                        assert(views(tree.level1@).len() == level1_tables(self.blocks()).len());
                        assert(views(tree.level1@)[group_index as int]
                            == tree.level1@[group_index as int]@);
                    }
                    copy_all(&tree.level1[group_index as usize])
                }
            },
            None => zeroed(0x1000),
        }
    }

    /// The next piece of the package: the header, then one physical block each call, then
    /// none. Everything emitted adds up to the package's size.
    pub fn next_chunk(&mut self, _max_bytes: usize) -> (r: Result<Option<Vec<u8>>, StfsWriteError>)
        requires
            old(self).wf(),
        ensures
            chunk_step(*old(self), *final(self), _max_bytes, r),
    {
        if !self.hashing_done {
            return Err(StfsWriteError::HashingUnfinished);
        }
        match self.phase {
            WritePhase::Header => {
                let h = self.emit_header();
                self.phase = WritePhase::Body;
                assert(self.blocks() == old(self).blocks());
                Ok(Some(h))
            },
            WritePhase::Body => {
                let ghost cursor0 = self.physical_cursor as int;
                let ghost block0 = self.block_num as int;
                let mut cursor: u64 = self.physical_cursor;
                let mut b: u32 = self.block_num;
                proof {
                    lemma_cursor_bound(self.layout, cursor0, block0);
                }
                let step = self.layout.step_physical_block(&mut cursor, &mut b);
                self.physical_cursor = cursor;
                self.block_num = b;
                assert(self.blocks() == old(self).blocks());
                match step {
                    None => {
                        self.phase = WritePhase::Done;
                        Ok(None)
                    },
                    Some(PhysicalStep::HashUpperLevel { at_top, group_index }) => {
                        let t = self.emit_hash_upper_level(at_top, group_index);
                        assert(t@ == old(self).block_content(
                            PhysicalStep::HashUpperLevel { at_top, group_index },
                        ));
                        Ok(Some(t))
                    },
                    Some(PhysicalStep::HashLevel0 { group_start, group_end }) => {
                        let t = self.emit_hash_level0(group_start, group_end);
                        assert(t@ == old(self).block_content(
                            PhysicalStep::HashLevel0 { group_start, group_end },
                        ));
                        Ok(Some(t))
                    },
                    Some(PhysicalStep::Data { block_num }) => {
                        match self.read_block(block_num) {
                            Ok(v) => Ok(Some(v)),
                            Err(e) => Err(StfsWriteError::Read(e)),
                        }
                    },
                }
            },
            WritePhase::Done => Ok(None),
        }
    }

    pub fn is_done(&self) -> (r: bool)
        ensures
            r == (self.phase == WritePhase::Done),
    {
        self.phase == WritePhase::Done
    }

    /// Progress is counted in blocks.
    pub fn total_units(&self) -> (r: u64)
        ensures
            r == self.layout.total_blocks,
    {
        self.layout.total_blocks as u64
    }

    /// None: a package is one file.
    pub fn current_entry_name(&self) -> (r: Option<&str>)
        ensures
            r is None,
    {
        None
    }

    /// The name of the packed file whose block was emitted last; none outside file data.
    pub fn current_file_name(&self) -> (r: Option<String>)
        requires
            self.wf(),
        ensures
            match r {
                Some(name) => {
                    &&& self.phase == WritePhase::Body
                    &&& self.block_num > self.layout.file_table_block_count
                    &&& name@ == self.layout.entries@[owner(
                        self.layout,
                        self.block_num - 1,
                    )].name@
                },
                None => self.phase != WritePhase::Body || self.block_num
                    <= self.layout.file_table_block_count,
            },
    {
        if self.phase != WritePhase::Body || self.block_num == 0 {
            return None;
        }
        let last: u32 = self.block_num - 1;
        if last < self.layout.file_table_block_count as u32 {
            return None;
        }
        assert(self.layout.has_owner(last as int));
        match self.layout.entry_for_data_block(last) {
            Some(idx) => {
                proof {
                    lemma_owner_unique(self.layout, last as int, idx as int);
                }
                Some(self.layout.entries[idx].name.clone())
            },
            None => None,
        }
    }

    /// The one output file and its size.
    pub fn output_manifest(&self) -> (r: Vec<(String, u64)>)
        requires
            self.wf(),
        ensures
            r@.len() == 1,
            r@[0].0@ == self.output_name@,
            r@[0].1 == self.package_size(),
    {
        let mut r: Vec<(String, u64)> = Vec::new();
        r.push((self.output_name.clone(), self.layout.total_output_size()));
        r
    }
}

proof fn lemma_cursor_bound(l: StfsLayout, cursor: int, b: int)
    requires
        l.wf(),
        l.on_course(cursor, b),
    ensures
        cursor < 0x10_0000_0000,
{
}

fn copy_all(v: &Vec<u8>) -> (r: Vec<u8>)
    ensures
        r@ == v@,
{
    let r = copy_range(v.as_slice(), 0, v.len());
    assert(r@ =~= v@);
    r
}

} // verus!
