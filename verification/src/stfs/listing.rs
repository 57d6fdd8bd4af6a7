//! The file listing of a package: decoding its entries and rebuilding paths.
use crate::bytes::{be_val, copy_range, field, get_be, get_le, le_val};
use crate::source::ReadError;
use crate::stfs::format::{FILE_ENTRIES_PER_BLOCK, FILE_ENTRY_SIZE, ROOT_ENTRY_INDEX};
use crate::utils::paths::{joined, lemma_joined_front};
use crate::utils::safe_path::{is_safe_path_component, safe_component};
use crate::utils::text::{decode_utf8_lossy, utf8_text};
use vstd::prelude::*;
use vstd::string::*;

verus! {

/// Why a package cannot be read.
#[derive(Clone, Copy, Debug, PartialEq, Eq, Structural)]
pub enum StfsReadError {
    TooSmall,
    NotAPackage,
    NoAllocatedBlocks,
    /// The volume descriptor is of another type.
    NotStfsShaped(u32),
    HeaderTooLarge,
    InvalidBlockCount,
    IllegalBlock,
    UnsafeName,
    DanglingParent(u16),
    ParentNotDirectory,
    ParentsTooDeep,
    NoSuchFile,
    PastEndOfFile,
    ChainEnded,
    Read(ReadError),
}

impl StfsReadError {
    pub open spec fn text(self) -> Seq<char> {
        match self {
            StfsReadError::TooSmall => "stfs: file too small to contain a header"@,
            StfsReadError::NotAPackage => "stfs: not a LIVE/PIRS/CON package"@,
            StfsReadError::NoAllocatedBlocks => "stfs: package has no allocated blocks"@,
            StfsReadError::NotStfsShaped(_) => "stfs: volume descriptor is not STFS-shaped"@,
            StfsReadError::HeaderTooLarge => "stfs: header size out of range"@,
            StfsReadError::InvalidBlockCount => "stfs: invalid allocated block count"@,
            StfsReadError::IllegalBlock => "stfs: reference to illegal block number"@,
            StfsReadError::UnsafeName => "stfs: unsafe path component in file listing"@,
            StfsReadError::DanglingParent(_) => "stfs: dangling parent index"@,
            StfsReadError::ParentNotDirectory => "stfs: parent entry isn't a directory"@,
            StfsReadError::ParentsTooDeep => "stfs: file-listing parent chain too deep"@,
            StfsReadError::NoSuchFile => "stfs: file index out of range"@,
            StfsReadError::PastEndOfFile => "stfs: read past end of file"@,
            StfsReadError::ChainEnded => "stfs: block chain ended before end of requested range"@,
            StfsReadError::Read(_) => "stfs: read failed"@,
        }
    }

    pub fn message(&self) -> (r: &'static str)
        ensures
            r@ == self.text(),
    {
        match *self {
            StfsReadError::TooSmall => "stfs: file too small to contain a header",
            StfsReadError::NotAPackage => "stfs: not a LIVE/PIRS/CON package",
            StfsReadError::NoAllocatedBlocks => "stfs: package has no allocated blocks",
            StfsReadError::NotStfsShaped(_) => "stfs: volume descriptor is not STFS-shaped",
            StfsReadError::HeaderTooLarge => "stfs: header size out of range",
            StfsReadError::InvalidBlockCount => "stfs: invalid allocated block count",
            StfsReadError::IllegalBlock => "stfs: reference to illegal block number",
            StfsReadError::UnsafeName => "stfs: unsafe path component in file listing",
            StfsReadError::DanglingParent(_) => "stfs: dangling parent index",
            StfsReadError::ParentNotDirectory => "stfs: parent entry isn't a directory",
            StfsReadError::ParentsTooDeep => "stfs: file-listing parent chain too deep",
            StfsReadError::NoSuchFile => "stfs: file index out of range",
            StfsReadError::PastEndOfFile => "stfs: read past end of file",
            StfsReadError::ChainEnded => "stfs: block chain ended before end of requested range",
            StfsReadError::Read(_) => "stfs: read failed",
        }
    }
}

/// The big-endian number in three bytes.
pub fn read_int24_be(bytes: &[u8]) -> (r: u32)
    requires
        bytes@.len() >= 3,
    ensures
        r == be_val(field(bytes@, 0, 3)),
        r < 0x100_0000,
{
    proof {
        crate::bytes::lemma_pow256();
    }
    get_be(bytes, 0, 3) as u32
}

/// The little-endian number in three bytes.
pub fn read_int24_le(bytes: &[u8]) -> (r: u32)
    requires
        bytes@.len() >= 3,
    ensures
        r == le_val(field(bytes@, 0, 3)),
        r < 0x100_0000,
{
    proof {
        crate::bytes::lemma_pow256();
    }
    get_le(bytes, 0, 3) as u32
}

/// One listing record, before path reconstruction.
pub struct RawEntry {
    pub name: String,
    pub entry_index: u16,
    pub path_indicator: u16,
    pub is_directory: bool,
    pub is_contiguous: bool,
    pub starting_block_num: u32,
    pub file_size: u32,
}

/// What a listing record says.
pub struct EntryModel {
    pub name: Seq<char>,
    pub entry_index: u16,
    pub path_indicator: u16,
    pub is_directory: bool,
    pub is_contiguous: bool,
    pub starting_block_num: u32,
    pub file_size: u32,
}

impl RawEntry {
    pub open spec fn model(self) -> EntryModel {
        EntryModel {
            name: self.name@,
            entry_index: self.entry_index,
            path_indicator: self.path_indicator,
            is_directory: self.is_directory,
            is_contiguous: self.is_contiguous,
            starting_block_num: self.starting_block_num,
            file_size: self.file_size,
        }
    }
}

pub open spec fn entry_models(entries: Seq<RawEntry>) -> Seq<EntryModel> {
    entries.map_values(|e: RawEntry| e.model())
}

/// A slot of the listing: unused, or an entry.
pub enum EntrySlot {
    Empty,
    Entry(RawEntry),
}

/// What the 0x40 bytes of a slot say; none for an unused slot, whose name length is zero.
pub open spec fn slot_of(b: Seq<u8>, entry_index: u16) -> Option<EntryModel> {
    let n = b[0x28] as int % 0x40;
    if n == 0 {
        None
    } else {
        Some(
            EntryModel {
                name: utf8_text(
                    b.take(
                        if n < 0x28 {
                            n
                        } else {
                            0x28
                        },
                    ),
                ),
                entry_index,
                path_indicator: be_val(field(b, 0x32, 2)) as u16,
                is_directory: b[0x28] as int / 0x80 == 1,
                is_contiguous: b[0x28] as int / 0x40 % 2 == 1,
                starting_block_num: le_val(field(b, 0x2F, 3)) as u32,
                file_size: be_val(field(b, 0x34, 4)) as u32,
            },
        )
    }
}

fn decode_slot(bytes: &[u8], at: usize, entry_index: u16) -> (r: EntrySlot)
    requires
        at + 0x40 <= bytes.len(),
    ensures
        match r {
            EntrySlot::Empty => slot_of(field(bytes@, at as int, 0x40), entry_index) is None,
            EntrySlot::Entry(e) => slot_of(field(bytes@, at as int, 0x40), entry_index) == Some(
                e.model(),
            ),
        },
{
    let ghost b = field(bytes@, at as int, 0x40);
    proof {
        crate::bytes::lemma_pow256();
        assert(field(b, 0x32, 2) =~= field(bytes@, at + 0x32, 2));
        assert(field(b, 0x2F, 3) =~= field(bytes@, at + 0x2F, 3));
        assert(field(b, 0x34, 4) =~= field(bytes@, at + 0x34, 4));
    }
    let len_byte: u8 = bytes[at + 0x28];
    let n: usize = (len_byte % 0x40) as usize;
    if n == 0 {
        return EntrySlot::Empty;
    }
    let used: usize = if n < 0x28 {
        n
    } else {
        0x28
    };
    let raw_name = copy_range(bytes, at, at + used);
    assert(raw_name@ =~= b.take(used as int));
    EntrySlot::Entry(
        RawEntry {
            name: decode_utf8_lossy(raw_name.as_slice()),
            entry_index,
            path_indicator: get_be(bytes, at + 0x32, 2) as u16,
            is_directory: len_byte / 0x80 == 1,
            is_contiguous: len_byte / 0x40 % 2 == 1,
            starting_block_num: get_le(bytes, at + 0x2F, 3) as u32,
            file_size: get_be(bytes, at + 0x34, 4) as u32,
        },
    )
}

/// Decodes one listing slot.
pub fn decode_file_entry_bytes(buf: &[u8; 64], entry_index: u16) -> (r: EntrySlot)
    ensures
        match r {
            EntrySlot::Empty => slot_of(buf@, entry_index) is None,
            EntrySlot::Entry(e) => slot_of(buf@, entry_index) == Some(e.model()),
        },
{
    assert(field(buf@, 0, 0x40) =~= buf@);
    decode_slot(buf.as_slice(), 0, entry_index)
}

/// The entries in the first `k` slots of a listing block whose first slot has index `first`;
/// indices wrap at 16 bits.
pub open spec fn block_entries(b: Seq<u8>, first: int, k: int) -> Seq<EntryModel>
    decreases k,
{
    if k <= 0 {
        Seq::empty()
    } else {
        let rest = block_entries(b, first, k - 1);
        match slot_of(field(b, (k - 1) * 0x40, 0x40), ((first + k - 1) % 0x1_0000) as u16) {
            Some(e) => rest.push(e),
            None => rest,
        }
    }
}

/// Appends the entries of one listing block.
pub(crate) fn decode_listing_block(block: &[u8], first: u16, entries: &mut Vec<RawEntry>)
    requires
        block@.len() == 0x1000,
    ensures
        entry_models(final(entries)@) == entry_models(old(entries)@) + block_entries(
            block@,
            first as int,
            0x40,
        ),
{
    let ghost before = entry_models(entries@);
    let mut k: usize = 0;
    assert(before + block_entries(block@, first as int, 0) =~= before);
    while k < FILE_ENTRIES_PER_BLOCK
        invariant
            k <= 0x40,
            block@.len() == 0x1000,
            entry_models(entries@) == before + block_entries(block@, first as int, k as int),
        decreases 0x40 - k,
    {
        let index: u16 = ((first as u32 + k as u32) % 0x1_0000) as u16;
        let ghost prev = entries@;
        match decode_slot(block, k * FILE_ENTRY_SIZE, index) {
            EntrySlot::Empty => {},
            EntrySlot::Entry(e) => {
                let ghost m = e.model();
                entries.push(e);
                assert(entry_models(entries@) =~= entry_models(prev).push(m));
                assert(before + block_entries(block@, first as int, k as int).push(m) =~= (before
                    + block_entries(block@, first as int, k as int)).push(m));
            },
        }
        k = k + 1;
    }
}

/// Whether a block of the package is allocated.
pub fn check_block_in_range(block_num: u64, allocated_block_count: u32) -> (r: Result<
    (),
    StfsReadError,
>)
    ensures
        r == (if block_num < allocated_block_count {
            Ok(())
        } else {
            Err(StfsReadError::IllegalBlock)
        }),
{
    if block_num < allocated_block_count as u64 {
        Ok(())
    } else {
        Err(StfsReadError::IllegalBlock)
    }
}

/// The last entry before number `k` with this index.
pub open spec fn last_with_index(entries: Seq<EntryModel>, index: u16, k: int) -> Option<int>
    decreases k,
{
    if k <= 0 {
        None
    } else if entries[k - 1].entry_index == index {
        Some(k - 1)
    } else {
        last_with_index(entries, index, k - 1)
    }
}

/// The names of the directories from the root down to the one with index `parent`, found in at
/// most `steps` steps up.
pub open spec fn ancestors(entries: Seq<EntryModel>, parent: u16, steps: nat) -> Result<
    Seq<Seq<char>>,
    StfsReadError,
>
    decreases steps,
{
    if parent == ROOT_ENTRY_INDEX {
        Ok(Seq::empty())
    } else if steps == 0 {
        Err(StfsReadError::ParentsTooDeep)
    } else {
        match last_with_index(entries, parent, entries.len() as int) {
            None => Err(StfsReadError::DanglingParent(parent)),
            Some(i) => {
                let dir = entries[i];
                if !dir.is_directory {
                    Err(StfsReadError::ParentNotDirectory)
                } else if !safe_component(dir.name) {
                    Err(StfsReadError::UnsafeName)
                } else {
                    match ancestors(entries, dir.path_indicator, (steps - 1) as nat) {
                        Ok(a) => Ok(a.push(dir.name)),
                        Err(e) => Err(e),
                    }
                }
            },
        }
    }
}

/// How many directories a file may stand under.
pub const MAX_PARENTS: u32 = 4095;

/// The components of entry `k`'s path, each of them safe.
pub open spec fn entry_path(entries: Seq<EntryModel>, k: int) -> Result<
    Seq<Seq<char>>,
    StfsReadError,
> {
    let e = entries[k];
    if !safe_component(e.name) {
        Err(StfsReadError::UnsafeName)
    } else {
        match ancestors(entries, e.path_indicator, MAX_PARENTS as nat) {
            Ok(a) => Ok(a.push(e.name)),
            Err(e) => Err(e),
        }
    }
}

/// A file of the package: path, first block, size, and whether its blocks are contiguous.
pub struct ListedFile {
    pub path: Seq<char>,
    pub starting_block: u32,
    pub size: u32,
    pub is_contiguous: bool,
}

/// The files among the first `k` entries, in order; the error of the first that has no path.
pub open spec fn listed_files(entries: Seq<EntryModel>, k: int) -> Result<
    Seq<ListedFile>,
    StfsReadError,
>
    decreases k,
{
    if k <= 0 {
        Ok(Seq::empty())
    } else {
        match listed_files(entries, k - 1) {
            Err(e) => Err(e),
            Ok(files) => if entries[k - 1].is_directory {
                Ok(files)
            } else {
                match entry_path(entries, k - 1) {
                    Err(e) => Err(e),
                    Ok(parts) => Ok(
                        files.push(
                            ListedFile {
                                path: joined(parts),
                                starting_block: entries[k - 1].starting_block_num,
                                size: entries[k - 1].file_size,
                                is_contiguous: entries[k - 1].is_contiguous,
                            },
                        ),
                    ),
                }
            },
        }
    }
}

/// An error among the first entries is the error of the whole listing.
proof fn lemma_first_error(entries: Seq<EntryModel>, k: int, n: int)
    requires
        0 <= k <= n,
        listed_files(entries, k) is Err,
    ensures
        listed_files(entries, n) == listed_files(entries, k),
    decreases n - k,
{
    if k < n {
        lemma_first_error(entries, k, n - 1);
    }
}

pub open spec fn file_models(files: Seq<(String, u32, u32, bool)>) -> Seq<ListedFile> {
    files.map_values(
        |f: (String, u32, u32, bool)|
            ListedFile {
                path: f.0@,
                starting_block: f.1,
                size: f.2,
                is_contiguous: f.3,
            },
    )
}

fn find_last(entries: &[RawEntry], index: u16) -> (r: Option<usize>)
    ensures
        match r {
            Some(i) => i < entries@.len() && last_with_index(
                entry_models(entries@),
                index,
                entries@.len() as int,
            ) == Some(i as int),
            None => last_with_index(entry_models(entries@), index, entries@.len() as int) is None,
        },
{
    let ghost m = entry_models(entries@);
    let mut k: usize = entries.len();
    while k > 0
        invariant
            k <= entries@.len(),
            m == entry_models(entries@),
            last_with_index(m, index, entries@.len() as int) == last_with_index(
                m,
                index,
                k as int,
            ),
        decreases k,
    {
        assert(m[k - 1] == entries@[k - 1].model());
        if entries[k - 1].entry_index == index {
            return Some(k - 1);
        }
        k = k - 1;
    }
    None
}

fn resolve_path(entries: &[RawEntry], k: usize) -> (r: Result<String, StfsReadError>)
    requires
        k < entries@.len(),
    ensures
        match r {
            Ok(p) => entry_path(entry_models(entries@), k as int) matches Ok(parts) && p@ == joined(
                parts,
            ),
            Err(e) => entry_path(entry_models(entries@), k as int) == Err::<
                Seq<Seq<char>>,
                StfsReadError,
            >(e),
        },
{
    let ghost m = entry_models(entries@);
    assert(m[k as int] == entries@[k as int].model());
    if !is_safe_path_component(entries[k].name.as_str()) {
        return Err(StfsReadError::UnsafeName);
    }
    let mut path: String = entries[k].name.clone();
    let mut parent: u16 = entries[k].path_indicator;
    let mut left: u32 = MAX_PARENTS;
    let ghost mut below: Seq<Seq<char>> = seq![m[k as int].name];
    assert(joined(below) == path@);
    proof {
        if let Ok(a) = ancestors(m, parent, MAX_PARENTS as nat) {
            assert(a.push(m[k as int].name) =~= a + below);
        }
    }
    while parent != ROOT_ENTRY_INDEX
        invariant
            left <= MAX_PARENTS,
            m == entry_models(entries@),
            below.len() > 0,
            path@ == joined(below),
            entry_path(m, k as int) == (match ancestors(m, parent, left as nat) {
                Ok(a) => Ok::<Seq<Seq<char>>, StfsReadError>(a + below),
                Err(e) => Err::<Seq<Seq<char>>, StfsReadError>(e),
            }),
        decreases left,
    {
        if left == 0 {
            return Err(StfsReadError::ParentsTooDeep);
        }
        match find_last(entries, parent) {
            None => {
                return Err(StfsReadError::DanglingParent(parent));
            },
            Some(i) => {
                let dir = &entries[i];
                assert(m[i as int] == entries@[i as int].model());
                if !dir.is_directory {
                    return Err(StfsReadError::ParentNotDirectory);
                }
                if !is_safe_path_component(dir.name.as_str()) {
                    return Err(StfsReadError::UnsafeName);
                }
                let mut longer: String = dir.name.clone();
                longer.push('/');
                longer.append(path.as_str());
                proof {
                    lemma_joined_front(dir.name@, below);
                    assert(longer@ =~= dir.name@ + seq!['/'] + joined(below));
                    let next = seq![dir.name@] + below;
                    if let Ok(a) = ancestors(m, dir.path_indicator, (left - 1) as nat) {
                        assert(a.push(dir.name@) + below =~= a + next);
                    }
                    below = next;
                }
                path = longer;
                parent = dir.path_indicator;
                left = left - 1;
            },
        }
    }
    assert(Seq::<Seq<char>>::empty() + below =~= below);
    Ok(path)
}

/// Rebuilds the path of every file of a listing.
pub fn build_paths(entries: &[RawEntry]) -> (r: Result<
    Vec<(String, u32, u32, bool)>,
    StfsReadError,
>)
    ensures
        match r {
            Ok(files) => listed_files(entry_models(entries@), entries@.len() as int) == Ok::<
                Seq<ListedFile>,
                StfsReadError,
            >(file_models(files@)),
            Err(e) => listed_files(entry_models(entries@), entries@.len() as int) == Err::<
                Seq<ListedFile>,
                StfsReadError,
            >(e),
        },
{
    let ghost m = entry_models(entries@);
    let mut files: Vec<(String, u32, u32, bool)> = Vec::new();
    let mut k: usize = 0;
    assert(file_models(files@) =~= Seq::empty());
    while k < entries.len()
        invariant
            k <= entries@.len(),
            m == entry_models(entries@),
            listed_files(m, k as int) == Ok::<Seq<ListedFile>, StfsReadError>(file_models(files@)),
        decreases entries@.len() - k,
    {
        assert(m[k as int] == entries@[k as int].model());
        if !entries[k].is_directory {
            match resolve_path(entries, k) {
                Ok(path) => {
                    let ghost before = files@;
                    let f = (
                        path,
                        entries[k].starting_block_num,
                        entries[k].file_size,
                        entries[k].is_contiguous,
                    );
                    files.push(f);
                    assert(file_models(files@) =~= file_models(before).push(
                        ListedFile {
                            path: f.0@,
                            starting_block: f.1,
                            size: f.2,
                            is_contiguous: f.3,
                        },
                    ));
                },
                Err(e) => {
                    proof {
                        lemma_first_error(m, k + 1, entries@.len() as int);
                    }
                    return Err(e);
                },
            }
        }
        k = k + 1;
    }
    Ok(files)
}

proof fn lemma_ancestors_safe(entries: Seq<EntryModel>, parent: u16, steps: nat)
    ensures
        ancestors(entries, parent, steps) matches Ok(a) ==> a.len() <= steps && forall|i: int|
            0 <= i < a.len() ==> safe_component(#[trigger] a[i]),
    decreases steps,
{
    if parent != ROOT_ENTRY_INDEX && steps > 0 {
        if let Some(i) = last_with_index(entries, parent, entries.len() as int) {
            lemma_ancestors_safe(entries, entries[i].path_indicator, (steps - 1) as nat);
        }
    }
}

/// Every path that a listing yields is made of safe components, and splits into them.
pub proof fn listed_paths_are_safe(entries: Seq<EntryModel>, k: int)
    requires
        0 <= k < entries.len(),
    ensures
        entry_path(entries, k) matches Ok(parts) ==> {
            &&& forall|i: int| 0 <= i < parts.len() ==> safe_component(#[trigger] parts[i])
            &&& crate::utils::paths::components(joined(parts)) == parts
        },
{
    lemma_ancestors_safe(entries, entries[k].path_indicator, MAX_PARENTS as nat);
    if let Ok(parts) = entry_path(entries, k) {
        assert forall|i: int| 0 <= i < parts.len() implies crate::utils::paths::is_component(
            #[trigger] parts[i],
        ) by {
            assert(safe_component(parts[i]));
            if parts[i].contains('/') {
                let j = choose|j: int| 0 <= j < parts[i].len() && parts[i][j] == '/';
                assert(crate::utils::safe_path::is_separator(parts[i][j]));
            }
        }
        crate::utils::paths::joined_splits(parts);
    }
}

} // verus!
