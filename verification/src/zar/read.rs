//! Reading an archive: footer, offset records, name table, file tree and file data.
use crate::bytes::{be_val, copy_range, field, get_be, opt_view};
use crate::source::ReadError;
use crate::utils::paths::join_path;
use crate::utils::safe_path::{is_safe_path_component, safe_component};
use crate::zar::format::{decode_windows_1252, win1252_text};
use vstd::prelude::*;
use vstd::set_lib::*;

verus! {

/// Why an archive cannot be read.
#[derive(Clone, Copy, Debug, PartialEq, Eq, Structural)]
pub enum ZarReadError {
    TooSmall,
    BadMagic,
    UnsupportedVersion,
    SizeMismatch,
    SectionOutOfRange,
    RaggedOffsetRecords,
    RaggedFileTree,
    SectionTooLarge,
    NameOutOfRange,
    TruncatedNameHeader,
    NamePastEnd,
    UnsafeName,
    EmptyTree,
    RootNotDirectory,
    ChildRangeOverflow,
    ChildOutOfRange(u64),
    Revisited(u64),
    NoSuchFile,
    PastEndOfFile,
    BlockOutOfRange(u64),
    /// The block is no zstd stream, or holds another amount of data than a block.
    BadBlock(u64),
    Read(ReadError),
}

impl ZarReadError {
    pub open spec fn text(self) -> Seq<char> {
        match self {
            ZarReadError::TooSmall => "zar: file too small to contain a footer"@,
            ZarReadError::BadMagic => "zar: bad footer magic"@,
            ZarReadError::UnsupportedVersion => "zar: unsupported footer version"@,
            ZarReadError::SizeMismatch => "zar: footer total size doesn't match actual file size"@,
            ZarReadError::SectionOutOfRange => "zar: footer section out of range"@,
            ZarReadError::RaggedOffsetRecords =>
                "zar: offset-records section isn't a whole number of records"@,
            ZarReadError::RaggedFileTree =>
                "zar: file-tree section isn't a whole number of entries"@,
            ZarReadError::SectionTooLarge => "zar: section does not fit in memory"@,
            ZarReadError::NameOutOfRange => "zar: name offset out of range"@,
            ZarReadError::TruncatedNameHeader => "zar: truncated name header"@,
            ZarReadError::NamePastEnd => "zar: name extends past the end of the name table"@,
            ZarReadError::UnsafeName => "zar: unsafe path component in name table"@,
            ZarReadError::EmptyTree => "zar: empty file tree"@,
            ZarReadError::RootNotDirectory =>
                "zar: first file-tree entry must be the root directory"@,
            ZarReadError::ChildRangeOverflow => "zar: directory child range overflowed"@,
            ZarReadError::ChildOutOfRange(_) => "zar: file-tree index out of range"@,
            ZarReadError::Revisited(_) =>
                "zar: file-tree index revisited (cyclic directory range)"@,
            ZarReadError::NoSuchFile => "zar: file index out of range"@,
            ZarReadError::PastEndOfFile => "zar: read past end of file"@,
            ZarReadError::BlockOutOfRange(_) => "zar: block out of range"@,
            ZarReadError::BadBlock(_) => "zar: zstd decode failed for block"@,
            ZarReadError::Read(_) => "zar: read failed"@,
        }
    }

    pub fn message(&self) -> (r: &'static str)
        ensures
            r@ == self.text(),
    {
        match *self {
            ZarReadError::TooSmall => "zar: file too small to contain a footer",
            ZarReadError::BadMagic => "zar: bad footer magic",
            ZarReadError::UnsupportedVersion => "zar: unsupported footer version",
            ZarReadError::SizeMismatch => "zar: footer total size doesn't match actual file size",
            ZarReadError::SectionOutOfRange => "zar: footer section out of range",
            ZarReadError::RaggedOffsetRecords =>
                "zar: offset-records section isn't a whole number of records",
            ZarReadError::RaggedFileTree =>
                "zar: file-tree section isn't a whole number of entries",
            ZarReadError::SectionTooLarge => "zar: section does not fit in memory",
            ZarReadError::NameOutOfRange => "zar: name offset out of range",
            ZarReadError::TruncatedNameHeader => "zar: truncated name header",
            ZarReadError::NamePastEnd => "zar: name extends past the end of the name table",
            ZarReadError::UnsafeName => "zar: unsafe path component in name table",
            ZarReadError::EmptyTree => "zar: empty file tree",
            ZarReadError::RootNotDirectory =>
                "zar: first file-tree entry must be the root directory",
            ZarReadError::ChildRangeOverflow => "zar: directory child range overflowed",
            ZarReadError::ChildOutOfRange(_) => "zar: file-tree index out of range",
            ZarReadError::Revisited(_) => "zar: file-tree index revisited (cyclic directory range)",
            ZarReadError::NoSuchFile => "zar: file index out of range",
            ZarReadError::PastEndOfFile => "zar: read past end of file",
            ZarReadError::BlockOutOfRange(_) => "zar: block out of range",
            ZarReadError::BadBlock(_) => "zar: zstd decode failed for block",
            ZarReadError::Read(_) => "zar: read failed",
        }
    }
}

/// What a zstd stream decodes to; none if it is not well-formed.
pub uninterp spec fn zstd_decoded(data: Seq<u8>) -> Option<Seq<u8>>;

/// `ruzstd::decoding::StreamingDecoder`, read to its end: what comes out, or that it failed,
/// is a function of the bytes alone.
#[verifier::external_body]
pub(crate) fn zstd_decode(data: &[u8]) -> (r: Option<Vec<u8>>)
    ensures
        opt_view(r) == zstd_decoded(data@),
{
    let mut decoder = ruzstd::decoding::StreamingDecoder::new(data).ok()?;
    let mut out = Vec::new();
    std::io::Read::read_to_end(&mut decoder, &mut out).ok()?;
    Some(out)
}

/// One 16-byte file-tree entry, before path reconstruction.
#[derive(Clone, Copy, Debug, PartialEq, Eq, Structural)]
pub enum TreeNodeRaw {
    File { name_offset: u32, offset: u64, size: u64 },
    Dir { name_offset: u32, node_start_index: u32, count: u32 },
}

/// What the 16 bytes of a tree entry say: the top bit of the first number tells a file from a
/// directory; offset and size of a file are 48 bits each, their high halves in the last number.
pub open spec fn tree_entry_of(b: Seq<u8>) -> TreeNodeRaw {
    let flag = be_val(field(b, 0, 4));
    let a = be_val(field(b, 4, 4));
    let c = be_val(field(b, 8, 4));
    let high = be_val(field(b, 12, 4));
    if flag >= 0x8000_0000 {
        TreeNodeRaw::File {
            name_offset: (flag - 0x8000_0000) as u32,
            offset: (a + high % 0x1_0000 * 0x1_0000_0000) as u64,
            size: (c + high / 0x1_0000 * 0x1_0000_0000) as u64,
        }
    } else {
        TreeNodeRaw::Dir { name_offset: flag as u32, node_start_index: a as u32, count: c as u32 }
    }
}

fn parse_tree_entry_at(bytes: &[u8], at: usize) -> (r: TreeNodeRaw)
    requires
        at + 16 <= bytes.len(),
    ensures
        r == tree_entry_of(field(bytes@, at as int, 16)),
{
    proof {
        crate::bytes::lemma_pow256();
        let b = field(bytes@, at as int, 16);
        assert(field(b, 0, 4) =~= field(bytes@, at as int, 4));
        assert(field(b, 4, 4) =~= field(bytes@, at + 4, 4));
        assert(field(b, 8, 4) =~= field(bytes@, at + 8, 4));
        assert(field(b, 12, 4) =~= field(bytes@, at + 12, 4));
    }
    let flag: u64 = get_be(bytes, at, 4);
    let a: u64 = get_be(bytes, at + 4, 4);
    let c: u64 = get_be(bytes, at + 8, 4);
    if flag >= 0x8000_0000 {
        let high: u64 = get_be(bytes, at + 12, 4);
        TreeNodeRaw::File {
            name_offset: (flag - 0x8000_0000) as u32,
            offset: a + high % 0x1_0000 * 0x1_0000_0000,
            size: c + high / 0x1_0000 * 0x1_0000_0000,
        }
    } else {
        TreeNodeRaw::Dir { name_offset: flag as u32, node_start_index: a as u32, count: c as u32 }
    }
}

/// Parses one file-tree entry.
pub fn parse_tree_entry(bytes: &[u8; 16]) -> (r: TreeNodeRaw)
    ensures
        r == tree_entry_of(bytes@),
{
    assert(field(bytes@, 0, 16) =~= bytes@);
    parse_tree_entry_at(bytes.as_slice(), 0)
}

/// The entries of a file-tree section.
pub open spec fn tree_of_bytes(b: Seq<u8>) -> Seq<TreeNodeRaw> {
    Seq::new(b.len() / 16, |i: int| tree_entry_of(field(b, i * 16, 16)))
}

/// Parses a file-tree section.
pub fn parse_tree(bytes: &[u8]) -> (r: Vec<TreeNodeRaw>)
    ensures
        r@ == tree_of_bytes(bytes@),
{
    let n: usize = bytes.len() / 16;
    let mut r: Vec<TreeNodeRaw> = Vec::new();
    let mut i: usize = 0;
    while i < n
        invariant
            i <= n,
            n == bytes@.len() / 16,
            bytes@.len() <= usize::MAX,
            r@.len() == i,
            forall|j: int| 0 <= j < i ==> r@[j] == tree_entry_of(field(bytes@, j * 16, 16)),
        decreases n - i,
    {
        r.push(parse_tree_entry_at(bytes, i * 16));
        i = i + 1;
    }
    assert(r@ =~= tree_of_bytes(bytes@));
    r
}

/// The name at `offset` in a name table: its length in one byte, or in two if the first has
/// its top bit set, then its characters.
pub open spec fn name_at(table: Seq<u8>, offset: int) -> Result<Seq<char>, ZarReadError> {
    if offset >= table.len() {
        Err(ZarReadError::NameOutOfRange)
    } else if table[offset] >= 0x80 && offset + 1 >= table.len() {
        Err(ZarReadError::TruncatedNameHeader)
    } else {
        let (len, start) = if table[offset] >= 0x80 {
            (table[offset] % 0x80 + table[offset + 1] * 0x80, offset + 2)
        } else {
            (table[offset] as int, offset + 1)
        };
        if start + len > table.len() {
            Err(ZarReadError::NamePastEnd)
        } else if !safe_component(win1252_text(table.subrange(start, start + len))) {
            Err(ZarReadError::UnsafeName)
        } else {
            Ok(win1252_text(table.subrange(start, start + len)))
        }
    }
}

/// Reads the name at `offset`.
pub fn read_name(name_table: &[u8], offset: u32) -> (r: Result<String, ZarReadError>)
    ensures
        match r {
            Ok(s) => name_at(name_table@, offset as int) == Ok::<Seq<char>, ZarReadError>(s@),
            Err(e) => name_at(name_table@, offset as int) == Err::<Seq<char>, ZarReadError>(e),
        },
{
    let off: usize = offset as usize;
    if off >= name_table.len() {
        return Err(ZarReadError::NameOutOfRange);
    }
    let b0: u8 = name_table[off];
    let (len, start): (usize, usize) = if b0 >= 0x80 {
        if name_table.len() - off <= 1 {
            return Err(ZarReadError::TruncatedNameHeader);
        }
        ((b0 % 0x80) as usize + name_table[off + 1] as usize * 0x80, off + 2)
    } else {
        (b0 as usize, off + 1)
    };
    if len > name_table.len() - start {
        return Err(ZarReadError::NamePastEnd);
    }
    let raw = copy_range(name_table, start, start + len);
    let name = decode_windows_1252(raw.as_slice());
    if is_safe_path_component(name.as_str()) {
        Ok(name)
    } else {
        Err(ZarReadError::UnsafeName)
    }
}

/// A file of the archive: path, place in the uncompressed data, and size.
pub struct ZarFile {
    pub path: Seq<char>,
    pub offset: u64,
    pub size: u64,
}

/// A tree walk: the files found, the directories still to be walked with their paths, and the
/// directories ever queued.
pub struct Walk {
    pub files: Seq<ZarFile>,
    pub queue: Seq<(int, Seq<char>)>,
    pub visited: Set<int>,
}

/// The path of `name` under `prefix`.
pub open spec fn child_path(prefix: Seq<char>, name: Seq<char>) -> Seq<char> {
    if prefix.len() == 0 {
        name
    } else {
        prefix + seq!['/'] + name
    }
}

/// The walk after the children from `i` to before `end` of the directory at `prefix`.
pub open spec fn visit_children(
    names: Seq<u8>,
    entries: Seq<TreeNodeRaw>,
    i: int,
    end: int,
    prefix: Seq<char>,
    w: Walk,
) -> Result<Walk, ZarReadError>
    decreases end - i,
{
    if i >= end {
        Ok(w)
    } else if i < 0 || i >= entries.len() {
        Err(ZarReadError::ChildOutOfRange(i as u64))
    } else {
        match entries[i] {
            TreeNodeRaw::File { name_offset, offset, size } => match name_at(
                names,
                name_offset as int,
            ) {
                Err(e) => Err(e),
                Ok(name) => visit_children(
                    names,
                    entries,
                    i + 1,
                    end,
                    prefix,
                    Walk {
                        files: w.files.push(
                            ZarFile { path: child_path(prefix, name), offset, size },
                        ),
                        ..w
                    },
                ),
            },
            TreeNodeRaw::Dir { name_offset, .. } => if w.visited.contains(i) {
                Err(ZarReadError::Revisited(i as u64))
            } else {
                match name_at(names, name_offset as int) {
                    Err(e) => Err(e),
                    Ok(name) => visit_children(
                        names,
                        entries,
                        i + 1,
                        end,
                        prefix,
                        Walk {
                            queue: w.queue.push((i, child_path(prefix, name))),
                            visited: w.visited.insert(i),
                            ..w
                        },
                    ),
                }
            },
        }
    }
}

/// One step of a walk: the first queued directory's children.
pub open spec fn walk_step(names: Seq<u8>, entries: Seq<TreeNodeRaw>, w: Walk) -> Result<
    Walk,
    ZarReadError,
> {
    let (idx, prefix) = w.queue[0];
    let rest = Walk { queue: w.queue.drop_first(), ..w };
    match entries[idx] {
        TreeNodeRaw::File { .. } => Ok(rest),
        TreeNodeRaw::Dir { node_start_index, count, .. } => if node_start_index + count
            > u32::MAX {
            Err(ZarReadError::ChildRangeOverflow)
        } else {
            visit_children(
                names,
                entries,
                node_start_index as int,
                node_start_index + count,
                prefix,
                rest,
            )
        },
    }
}

/// The files found by at most `steps` steps of a walk. Every directory is queued at most once,
/// so as many steps as there are entries end every walk.
pub open spec fn walk_files(
    names: Seq<u8>,
    entries: Seq<TreeNodeRaw>,
    w: Walk,
    steps: nat,
) -> Result<Seq<ZarFile>, ZarReadError>
    decreases steps,
{
    if w.queue.len() == 0 || steps == 0 {
        Ok(w.files)
    } else {
        match walk_step(names, entries, w) {
            Err(e) => Err(e),
            Ok(next) => walk_files(names, entries, next, (steps - 1) as nat),
        }
    }
}

/// The files of a tree, directory by directory in breadth-first order from the root.
pub open spec fn tree_files(names: Seq<u8>, entries: Seq<TreeNodeRaw>) -> Result<
    Seq<ZarFile>,
    ZarReadError,
> {
    if entries.len() == 0 {
        Err(ZarReadError::EmptyTree)
    } else if entries[0] is File {
        Err(ZarReadError::RootNotDirectory)
    } else {
        walk_files(names, entries, walk_start(), entries.len())
    }
}

/// A walk that is about to begin at the root.
pub open spec fn walk_start() -> Walk {
    Walk {
        files: Seq::empty(),
        queue: seq![(0int, Seq::<char>::empty())],
        visited: Set::empty().insert(0),
    }
}

pub open spec fn zar_files(files: Seq<(String, u64, u64)>) -> Seq<ZarFile> {
    files.map_values(
        |f: (String, u64, u64)| ZarFile { path: f.0@, offset: f.1, size: f.2 },
    )
}

pub open spec fn queue_view(q: Seq<(usize, String)>) -> Seq<(int, Seq<char>)> {
    q.map_values(|e: (usize, String)| (e.0 as int, e.1@))
}

pub open spec fn marked(v: Seq<bool>) -> Set<int> {
    Set::new(|i: int| 0 <= i < v.len() && v[i])
}

proof fn lemma_marked_finite(v: Seq<bool>)
    ensures
        marked(v).finite(),
        marked(v).len() <= v.len(),
{
    lemma_int_range(0, v.len() as int);
    assert(marked(v).subset_of(set_int_range(0, v.len() as int)));
    lemma_len_subset(marked(v), set_int_range(0, v.len() as int));
}

/// Walks a file tree from its root and gives every file its path.
pub fn build_files(name_table: &[u8], entries: &[TreeNodeRaw]) -> (r: Result<
    Vec<(String, u64, u64)>,
    ZarReadError,
>)
    ensures
        match r {
            Ok(files) => tree_files(name_table@, entries@) == Ok::<Seq<ZarFile>, ZarReadError>(
                zar_files(files@),
            ),
            Err(e) => tree_files(name_table@, entries@) == Err::<Seq<ZarFile>, ZarReadError>(e),
        },
{
    let n: usize = entries.len();
    if n == 0 {
        return Err(ZarReadError::EmptyTree);
    }
    if let TreeNodeRaw::File { .. } = entries[0] {
        return Err(ZarReadError::RootNotDirectory);
    }
    let ghost goal = tree_files(name_table@, entries@);
    let mut files: Vec<(String, u64, u64)> = Vec::new();
    let mut queue: Vec<(usize, String)> = Vec::new();
    let mut head: usize = 0;
    queue.push((0, String::new()));
    let mut visited: Vec<bool> = Vec::new();
    let mut i: usize = 0;
    while i < n
        invariant
            i <= n,
            visited@.len() == i,
            forall|j: int| 0 <= j < i ==> visited@[j] == (j == 0),
        decreases n - i,
    {
        visited.push(i == 0);
        i = i + 1;
    }
    let ghost mut w = walk_start();
    let ghost mut steps: nat = n as nat;
    proof {
        assert(zar_files(files@) =~= w.files);
        assert(queue_view(queue@.skip(0)) =~= w.queue);
        assert(marked(visited@) =~= w.visited);
        lemma_marked_finite(visited@);
        assert(w.visited.len() == 1);
    }
    while head < queue.len()
        invariant
            n == entries@.len(),
            0 < n,
            head <= queue@.len(),
            visited@.len() == n,
            w.files == zar_files(files@),
            w.queue == queue_view(queue@.skip(head as int)),
            w.visited == marked(visited@),
            forall|j: int| 0 <= j < queue@.len() ==> (#[trigger] queue@[j]).0 < n,
            goal == tree_files(name_table@, entries@),
            goal == walk_files(name_table@, entries@, w, steps),
            steps == w.queue.len() + n - w.visited.len(),
        decreases steps,
    {
        let idx: usize = queue[head].0;
        let prefix: String = queue[head].1.clone();
        let ghost w0 = w;
        proof {
            lemma_marked_finite(visited@);
            assert(queue@.skip(head as int)[0] == queue@[head as int]);
            assert(w.queue[0] == (idx as int, prefix@));
            assert(queue@.skip(head as int).drop_first() =~= queue@.skip(head + 1));
            assert(w.queue.drop_first() =~= queue_view(queue@.skip(head + 1)));
        }
        head = head + 1;
        match entries[idx] {
            TreeNodeRaw::File { .. } => {
                proof {
                    w = Walk { queue: w.queue.drop_first(), ..w };
                    steps = (steps - 1) as nat;
                }
            },
            TreeNodeRaw::Dir { node_start_index, count, .. } => {
                if node_start_index as u64 + count as u64 > 0xFFFF_FFFF {
                    return Err(ZarReadError::ChildRangeOverflow);
                }
                let end: u64 = node_start_index as u64 + count as u64;
                let mut c: u64 = node_start_index as u64;
                proof {
                    w = Walk { queue: w.queue.drop_first(), ..w };
                }
                let ghost step = walk_step(name_table@, entries@, w0);
                while c < end
                    invariant
                        n == entries@.len(),
                        head <= queue@.len(),
                        visited@.len() == n,
                        node_start_index <= c <= end <= 0xFFFF_FFFF,
                        w.files == zar_files(files@),
                        w.queue == queue_view(queue@.skip(head as int)),
                        w.visited == marked(visited@),
                        forall|j: int| 0 <= j < queue@.len() ==> (#[trigger] queue@[j]).0 < n,
                        goal == tree_files(name_table@, entries@),
                        goal == walk_files(name_table@, entries@, w0, steps),
                        w0.queue.len() > 0,
                        steps > 0,
                        steps - 1 == w.queue.len() + n - w.visited.len(),
                        step == walk_step(name_table@, entries@, w0),
                        step == visit_children(
                            name_table@,
                            entries@,
                            c as int,
                            end as int,
                            prefix@,
                            w,
                        ),
                    decreases end - c,
                {
                    if c >= n as u64 {
                        return Err(ZarReadError::ChildOutOfRange(c));
                    }
                    let ci: usize = c as usize;
                    match entries[ci] {
                        TreeNodeRaw::File { name_offset, offset, size } => {
                            let name = match read_name(name_table, name_offset) {
                                Ok(s) => s,
                                Err(e) => {
                                    return Err(e);
                                },
                            };
                            let ghost before = files@;
                            let path = join_path(prefix.as_str(), name.as_str());
                            let ghost f = ZarFile { path: path@, offset, size };
                            files.push((path, offset, size));
                            proof {
                                assert(zar_files(files@) =~= zar_files(before).push(f));
                                w = Walk { files: w.files.push(f), ..w };
                            }
                        },
                        TreeNodeRaw::Dir { name_offset, .. } => {
                            if visited[ci] {
                                return Err(ZarReadError::Revisited(c));
                            }
                            let name = match read_name(name_table, name_offset) {
                                Ok(s) => s,
                                Err(e) => {
                                    return Err(e);
                                },
                            };
                            let path = join_path(prefix.as_str(), name.as_str());
                            let ghost before = queue@;
                            let ghost seen = visited@;
                            let ghost entry = (c as int, path@);
                            queue.push((ci, path));
                            visited.set(ci, true);
                            proof {
                                assert(queue@.skip(head as int) =~= before.skip(head as int).push(
                                    queue@.last(),
                                ));
                                assert(queue_view(queue@.skip(head as int)) =~= queue_view(
                                    before.skip(head as int),
                                ).push(entry));
                                assert(marked(visited@) =~= marked(seen).insert(c as int));
                                lemma_marked_finite(seen);
                                w = Walk {
                                    queue: w.queue.push(entry),
                                    visited: w.visited.insert(c as int),
                                    ..w
                                };
                            }
                        },
                    }
                    c = c + 1;
                }
                proof {
                    steps = (steps - 1) as nat;
                }
            },
        }
    }
    Ok(files)
}

} // verus!
