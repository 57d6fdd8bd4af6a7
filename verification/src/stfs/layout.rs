//! Where the blocks of a package lie, and how a list of files is laid out in one.
//!
//! Hash-table blocks are interleaved with data blocks. A package whose block separation has its
//! low bit clear keeps two copies of every table, one with it set keeps one.
use crate::bytes::ceil_div;
use crate::utils::paths::{components, same_text, split_path, texts};
use vstd::prelude::*;

verus! {

/// Header size of a package without an installer trailer.
pub const DEFAULT_HEADER_SIZE: u32 = 0x971A;

/// Header size of a package with an installer trailer, room for its largest form.
pub const INSTALLER_HEADER_SIZE: u32 = 0xAD0E;

pub const END_OF_CHAIN: u32 = 0x00FF_FFFF;

/// How many copies of each hash table a package keeps.
pub open spec fn copies(sex_shift: u32) -> int {
    if sex_shift == 0 {
        1
    } else {
        2
    }
}

/// The shift that a block-separation byte stands for: the complement of its low bit.
pub open spec fn shift_of(block_separation: u8) -> u32 {
    if block_separation % 2 == 0 {
        1
    } else {
        0
    }
}

/// Physical block of data block `b`, with `c` copies of each table before it.
pub open spec fn data_position(c: int, b: int) -> int {
    b + (b / 0xAA + 1) * c + (if b < 0xAA {
        0
    } else if b < 0x70E4 {
        c
    } else {
        (b / 0x70E4 + 2) * c
    })
}

/// Physical block of the level-0 table that hashes data block `b`.
pub open spec fn level0_position(c: int, b: int) -> int {
    if b < 0xAA {
        0
    } else {
        b / 0xAA * (0xAA + c) + (b / 0x70E4 + 1) * c + (if b < 0x70E4 {
            0
        } else {
            c
        })
    }
}

/// Physical block of the level-1 table over data block `b`.
pub open spec fn level1_position(c: int, b: int) -> int {
    if b < 0x70E4 {
        0xAA + c
    } else {
        c + b / 0x70E4 * (0x70E4 + 0xAB * c)
    }
}

/// Physical block of the level-2 table.
pub open spec fn level2_position(c: int) -> int {
    0x70E4 + 0xAB * c
}

/// The address math of one package.
#[derive(Clone, Copy, Debug, PartialEq, Eq)]
pub struct BlockMap {
    pub sex_shift: u32,
}

impl BlockMap {
    pub open spec fn wf(self) -> bool {
        self.sex_shift <= 1
    }

    pub open spec fn c(self) -> int {
        copies(self.sex_shift)
    }

    /// The math that a block-separation byte asks for.
    pub fn new(block_separation: u8) -> (r: BlockMap)
        ensures
            r.wf(),
            r.sex_shift == shift_of(block_separation),
    {
        BlockMap {
            sex_shift: if block_separation % 2 == 0 {
                1
            } else {
                0
            },
        }
    }

    fn copies(self) -> (r: u64)
        ensures
            r == self.c(),
    {
        if self.sex_shift == 0 {
            1
        } else {
            2
        }
    }

    /// Physical block of data block `block_num`.
    pub fn compute_backing_data_block_number(self, block_num: u64) -> (r: u64)
        requires
            block_num < 0x1000_0000_0000_0000,
        ensures
            r == data_position(self.c(), block_num as int),
    {
        let c: u64 = self.copies();
        let base: u64 = (block_num / 0xAA + 1) * c + block_num;
        if block_num < 0xAA {
            base
        } else if block_num < 0x70E4 {
            base + c
        } else {
            base + (block_num / 0x70E4 + 2) * c
        }
    }

    /// Physical block of the level-0 table that hashes `block_num`.
    pub fn compute_level0_backing_hash_block_number(self, block_num: u64) -> (r: u64)
        requires
            block_num < 0x1000_0000_0000_0000,
        ensures
            r == level0_position(self.c(), block_num as int),
    {
        if block_num < 0xAA {
            return 0;
        }
        let c: u64 = self.copies();
        let q: u64 = block_num / 0xAA;
        let num: u64 = if self.sex_shift == 0 {
            q * 0xAB
        } else {
            q * 0xAC
        };
        let num: u64 = num + (block_num / 0x70E4 + 1) * c;
        if block_num < 0x70E4 {
            num
        } else {
            num + c
        }
    }

    /// Physical block of the level-1 table over `block_num`.
    pub fn compute_level1_backing_hash_block_number(self, block_num: u64) -> (r: u64)
        requires
            block_num < 0x1000_0000_0000_0000,
        ensures
            r == level1_position(self.c(), block_num as int),
    {
        if block_num < 0x70E4 {
            0xAA + self.copies()
        } else if self.sex_shift == 0 {
            1 + block_num / 0x70E4 * 0x718F
        } else {
            2 + block_num / 0x70E4 * 0x723A
        }
    }

    /// Physical block of the level-2 table.
    pub fn compute_level2_backing_hash_block_number(self) -> (r: u64)
        ensures
            r == level2_position(self.c()),
    {
        if self.sex_shift == 0 {
            0x718F
        } else {
            0x723A
        }
    }
}

/// Later data blocks lie at later physical blocks.
pub proof fn data_positions_increase(c: int, a: int, b: int)
    requires
        1 <= c <= 2,
        0 <= a < b,
    ensures
        data_position(c, a) < data_position(c, b),
{
    assert(a / 0xAA <= b / 0xAA);
    assert(a / 0x70E4 <= b / 0x70E4);
    assert((a / 0xAA + 1) * c <= (b / 0xAA + 1) * c) by (nonlinear_arith)
        requires
            a / 0xAA <= b / 0xAA,
            c >= 1,
    ;
    assert(c <= (b / 0x70E4 + 2) * c) by (nonlinear_arith)
        requires
            b / 0x70E4 >= 0,
            c >= 1,
    ;
    assert((a / 0x70E4 + 2) * c <= (b / 0x70E4 + 2) * c) by (nonlinear_arith)
        requires
            a / 0x70E4 <= b / 0x70E4,
            c >= 1,
    ;
}

/// The level-0 table of a group of 0xAA blocks stands directly before the group's first block,
/// after the last block of the group before.
pub proof fn level0_table_precedes_its_group(c: int, b: int)
    requires
        1 <= c <= 2,
        0 <= b,
    ensures
        level0_position(c, b) + c == data_position(c, b - b % 0xAA),
        b - b % 0xAA > 0 ==> data_position(c, b - b % 0xAA - 1) < level0_position(c, b),
{
    let g = b - b % 0xAA;
    let q = b / 0xAA;
    assert(g == q * 0xAA);
    assert(g / 0xAA == q);
    assert(g / 0x70E4 == b / 0x70E4);
    assert((g - 1) / 0xAA == q - 1 || g == 0);
    let k = b / 0x70E4;
    if c == 1 {
        if g > 0 {
            assert((g - 1) / 0x70E4 <= k);
        }
    } else {
        assert(c == 2);
        if g > 0 {
            assert((g - 1) / 0x70E4 <= k);
        }
    }
}

/// The level-1 table of a later group of 0x70E4 blocks stands between the last data block of
/// the group before and the first level-0 table of its own group.
pub proof fn level1_table_precedes_its_group(c: int, k: int)
    requires
        1 <= c <= 2,
        1 <= k,
    ensures
        data_position(c, k * 0x70E4 - 1) < level1_position(c, k * 0x70E4),
        level1_position(c, k * 0x70E4) + c == level0_position(c, k * 0x70E4),
{
    let b = k * 0x70E4;
    assert(b / 0x70E4 == k);
    assert(b / 0xAA == k * 0xAA);
    assert((b - 1) / 0xAA == k * 0xAA - 1);
    assert((b - 1) / 0x70E4 == k - 1);
    if c == 1 {
        assert(level0_position(1, b) == k * 0xAA * 0xAB + (k + 1) + 1);
        assert(level1_position(1, b) == 1 + k * 0x718F);
        assert(data_position(1, b - 1) < 1 + k * 0x718F);
    } else {
        assert(level0_position(2, b) == k * 0xAA * 0xAC + (k + 1) * 2 + 2);
        assert(level1_position(2, b) == 2 + k * 0x723A);
        assert(data_position(2, b - 1) < 2 + k * 0x723A);
    }
}

/// Positions stay small for every block that 24 bits can name.
pub proof fn positions_are_bounded(c: int, b: int)
    requires
        1 <= c <= 2,
        0 <= b <= 0x100_0000,
    ensures
        0 <= data_position(c, b) <= 0x200_0000,
        0 <= level0_position(c, b) <= 0x200_0000,
        0 <= level1_position(c, b) <= 0x200_0000,
        0 <= level2_position(c) <= 0x1_0000,
{
    let k = b / 0x70E4;
    assert(0 <= k <= 0x244);
    if c == 1 {
        assert(level1_position(1, b) == 0xAB || level1_position(1, b) == 1 + k * 0x718F);
        assert(0 <= data_position(1, b) <= 0x200_0000);
        assert(0 <= level0_position(1, b) <= 0x200_0000);
        assert(0 <= level1_position(1, b) <= 0x200_0000);
    } else {
        assert(level1_position(2, b) == 0xAC || level1_position(2, b) == 2 + k * 0x723A);
        assert(0 <= data_position(2, b) <= 0x200_0000);
        assert(0 <= level0_position(2, b) <= 0x200_0000);
        assert(0 <= level1_position(2, b) <= 0x200_0000);
    }
}

/// Why a list of files cannot be laid out.
#[derive(Clone, Copy, Debug, PartialEq, Eq, Structural)]
pub enum PlanError {
    EmptyPath,
    FileTooLarge,
    NoFiles,
    TooManyEntries,
    TooManyBlocks,
}

impl PlanError {
    pub open spec fn text(self) -> Seq<char> {
        match self {
            PlanError::EmptyPath => "stfs: empty path in file list"@,
            PlanError::FileTooLarge => "stfs: file size exceeds u32::MAX"@,
            PlanError::NoFiles => "stfs: at least one file is required"@,
            PlanError::TooManyEntries => "stfs: too many entries for a 16-bit entry index"@,
            PlanError::TooManyBlocks => "stfs: total blocks exceed Level Two capacity"@,
        }
    }

    pub fn message(&self) -> (r: &'static str)
        ensures
            r@ == self.text(),
    {
        match *self {
            PlanError::EmptyPath => "stfs: empty path in file list",
            PlanError::FileTooLarge => "stfs: file size exceeds u32::MAX",
            PlanError::NoFiles => "stfs: at least one file is required",
            PlanError::TooManyEntries => "stfs: too many entries for a 16-bit entry index",
            PlanError::TooManyBlocks => "stfs: total blocks exceed Level Two capacity",
        }
    }
}

/// How many blocks a file takes; an empty file takes one.
pub open spec fn entry_blocks(file_size: int) -> int {
    if file_size == 0 {
        1
    } else {
        ceil_div(file_size, 0x1000)
    }
}

/// How many blocks a file takes; an empty file takes one.
pub fn entry_block_count(file_size: u32) -> (r: u32)
    ensures
        r == entry_blocks(file_size as int),
        1 <= r <= 0x10_0000,
{
    if file_size == 0 {
        1
    } else {
        ((file_size as u64 + 0xFFF) / 0x1000) as u32
    }
}

/// A file or directory of the package, in listing order.
pub struct NodeModel {
    pub name: Seq<char>,
    pub is_directory: bool,
    /// The listing index of the directory it stands in; none at the root.
    pub parent: Option<int>,
    /// The input file it was made for; none for a directory.
    pub source: Option<int>,
    pub file_size: int,
}

/// The first node from index `k` on with this parent and name.
pub open spec fn find_node(
    nodes: Seq<NodeModel>,
    parent: Option<int>,
    name: Seq<char>,
    k: int,
) -> Option<int>
    decreases nodes.len() - k,
{
    if k < 0 || k >= nodes.len() {
        None
    } else if nodes[k].parent == parent && nodes[k].name == name {
        Some(k)
    } else {
        find_node(nodes, parent, name, k + 1)
    }
}

/// `nodes` with what is missing of the path `parts` from component `depth` on, under `parent`:
/// directories, and last the file. A node that exists is kept as it is. None if the file must
/// be made and is too large.
pub open spec fn add_path(
    nodes: Seq<NodeModel>,
    parts: Seq<Seq<char>>,
    depth: int,
    parent: Option<int>,
    file: int,
    size: int,
) -> Option<Seq<NodeModel>>
    decreases parts.len() - depth,
{
    if depth < 0 || depth >= parts.len() {
        Some(nodes)
    } else {
        let is_last = depth == parts.len() - 1;
        match find_node(nodes, parent, parts[depth], 0) {
            Some(i) => add_path(nodes, parts, depth + 1, Some(i), file, size),
            None => if is_last && size > u32::MAX {
                None
            } else {
                let node = NodeModel {
                    name: parts[depth],
                    is_directory: !is_last,
                    parent,
                    source: if is_last {
                        Some(file)
                    } else {
                        None
                    },
                    file_size: if is_last {
                        size
                    } else {
                        0
                    },
                };
                add_path(
                    nodes.push(node),
                    parts,
                    depth + 1,
                    Some(nodes.len() as int),
                    file,
                    size,
                )
            },
        }
    }
}

/// `nodes` with the files from number `i` on added in order.
pub open spec fn add_files(
    nodes: Seq<NodeModel>,
    files: Seq<(Seq<char>, int)>,
    i: int,
) -> Result<Seq<NodeModel>, PlanError>
    decreases files.len() - i,
{
    if i < 0 || i >= files.len() {
        Ok(nodes)
    } else if components(files[i].0).len() == 0 {
        Err(PlanError::EmptyPath)
    } else {
        match add_path(nodes, components(files[i].0), 0, None, i, files[i].1) {
            Some(n) => add_files(n, files, i + 1),
            None => Err(PlanError::FileTooLarge),
        }
    }
}

/// The listing of a package made of `files`.
pub open spec fn tree_of(files: Seq<(Seq<char>, int)>) -> Result<Seq<NodeModel>, PlanError> {
    match add_files(Seq::empty(), files, 0) {
        Ok(n) => if n.len() == 0 {
            Err(PlanError::NoFiles)
        } else if n.len() >= 0xFFFF {
            Err(PlanError::TooManyEntries)
        } else {
            Ok(n)
        },
        Err(e) => Err(e),
    }
}

/// What a list of paths and sizes holds.
pub open spec fn file_list(files: Seq<(String, u64)>) -> Seq<(Seq<char>, int)> {
    files.map_values(|f: (String, u64)| (f.0@, f.1 as int))
}

/// Every parent is an earlier node.
pub open spec fn parents_precede(nodes: Seq<NodeModel>) -> bool {
    forall|i: int|
        0 <= i < nodes.len() ==> ((#[trigger] nodes[i]).parent matches Some(p) ==> 0 <= p < i)
}

/// The names from the root down to node `i`.
pub open spec fn node_path(nodes: Seq<NodeModel>, i: int) -> Seq<Seq<char>>
    decreases i,
{
    if i < 0 || i >= nodes.len() {
        Seq::empty()
    } else {
        match nodes[i].parent {
            Some(p) => if 0 <= p < i {
                node_path(nodes, p).push(nodes[i].name)
            } else {
                seq![nodes[i].name]
            },
            None => seq![nodes[i].name],
        }
    }
}

proof fn lemma_find_node(nodes: Seq<NodeModel>, parent: Option<int>, name: Seq<char>, k: int)
    requires
        0 <= k,
    ensures
        find_node(nodes, parent, name, k) matches Some(i) ==> k <= i < nodes.len()
            && nodes[i].parent == parent && nodes[i].name == name,
    decreases nodes.len() - k,
{
    if k < nodes.len() && !(nodes[k].parent == parent && nodes[k].name == name) {
        lemma_find_node(nodes, parent, name, k + 1);
    }
}

proof fn lemma_node_path_prefix(a: Seq<NodeModel>, b: Seq<NodeModel>, i: int)
    requires
        a.len() <= b.len(),
        b.take(a.len() as int) == a,
        0 <= i < a.len(),
    ensures
        node_path(b, i) == node_path(a, i),
    decreases i,
{
    assert(b.take(a.len() as int)[i] == b[i]);
    if let Some(p) = a[i].parent {
        if 0 <= p < i {
            lemma_node_path_prefix(a, b, p);
        }
    }
}

/// What adding one path does to a listing: nodes stay, the path is there, and each node made
/// for a file has the file's path and size.
pub open spec fn path_added(
    old_nodes: Seq<NodeModel>,
    new_nodes: Seq<NodeModel>,
    parts: Seq<Seq<char>>,
    file: int,
    size: int,
) -> bool {
    &&& old_nodes.len() <= new_nodes.len()
    &&& new_nodes.take(old_nodes.len() as int) == old_nodes
    &&& parents_precede(new_nodes)
    &&& exists|j: int| 0 <= j < new_nodes.len() && #[trigger] node_path(new_nodes, j) == parts
    &&& forall|j: int|
        old_nodes.len() <= j < new_nodes.len() ==> {
            let n = #[trigger] new_nodes[j];
            &&& n.is_directory <==> n.source is None
            &&& n.source matches Some(f) ==> f == file && n.file_size == size && node_path(
                new_nodes,
                j,
            ) == parts
            &&& n.is_directory ==> leads_to(node_path(new_nodes, j), parts)
        }
}

/// A directory's path `dir` leads to the file with the path `parts`.
pub open spec fn leads_to(dir: Seq<Seq<char>>, parts: Seq<Seq<char>>) -> bool {
    dir.len() < parts.len() && dir == parts.take(dir.len() as int)
}

/// A directory's path leads to one of the first `n` files.
pub open spec fn leads_to_a_file(
    dir: Seq<Seq<char>>,
    files: Seq<(Seq<char>, int)>,
    n: int,
) -> bool {
    exists|f: int| 0 <= f < n && leads_to(dir, components((#[trigger] files[f]).0))
}

proof fn lemma_add_path(
    nodes: Seq<NodeModel>,
    parts: Seq<Seq<char>>,
    depth: int,
    parent: Option<int>,
    file: int,
    size: int,
)
    requires
        0 <= depth <= parts.len(),
        parents_precede(nodes),
        depth == 0 ==> parent is None && parts.len() > 0,
        depth > 0 ==> (parent matches Some(p) && 0 <= p < nodes.len() && node_path(nodes, p)
            == parts.take(depth)),
    ensures
        add_path(nodes, parts, depth, parent, file, size) matches Some(r) ==> path_added(
            nodes,
            r,
            parts,
            file,
            size,
        ),
    decreases parts.len() - depth,
{
    if depth >= parts.len() {
        assert(parts.take(depth) =~= parts);
        assert(nodes.take(nodes.len() as int) =~= nodes);
        assert(node_path(nodes, parent->0) == parts);
    } else {
        lemma_find_node(nodes, parent, parts[depth], 0);
        assert(parts.take(depth + 1) =~= parts.take(depth).push(parts[depth]));
        match find_node(nodes, parent, parts[depth], 0) {
            Some(i) => {
                if depth == 0 {
                    assert(parts.take(1) =~= seq![parts[0]]);
                }
                lemma_add_path(nodes, parts, depth + 1, Some(i), file, size);
            },
            None => {
                let is_last = depth == parts.len() - 1;
                if !(is_last && size > u32::MAX) {
                    let node = NodeModel {
                        name: parts[depth],
                        is_directory: !is_last,
                        parent,
                        source: if is_last {
                            Some(file)
                        } else {
                            None
                        },
                        file_size: if is_last {
                            size
                        } else {
                            0
                        },
                    };
                    let more = nodes.push(node);
                    assert(more.take(nodes.len() as int) =~= nodes);
                    let k = nodes.len() as int;
                    if depth == 0 {
                        assert(parts.take(1) =~= seq![parts[0]]);
                    } else {
                        lemma_node_path_prefix(nodes, more, parent->0);
                    }
                    assert(node_path(more, k) == parts.take(depth + 1));
                    lemma_add_path(more, parts, depth + 1, Some(k), file, size);
                    if let Some(r) = add_path(more, parts, depth + 1, Some(k), file, size) {
                        assert(r.take(k) =~= more.take(k)) by {
                            assert(r.take(more.len() as int) == more);
                            assert forall|j: int| 0 <= j < k implies r[j] == more[j] by {
                                assert(r.take(more.len() as int)[j] == r[j]);
                            }
                        }
                        assert(r[k] == more[k]) by {
                            assert(r.take(more.len() as int)[k] == r[k]);
                        }
                        lemma_node_path_prefix(more, r, k);
                        if is_last {
                            assert(parts.take(depth + 1) =~= parts);
                        } else {
                            assert(parts.take(depth + 1).len() == depth + 1);
                        }
                    }
                }
            },
        }
    }
}

/// Every node comes after its parent, each node made for a file has that file's path and size,
/// and every file has a node with its path.
pub open spec fn lists_files(
    nodes: Seq<NodeModel>,
    files: Seq<(Seq<char>, int)>,
    n: int,
) -> bool {
    &&& parents_precede(nodes)
    &&& forall|j: int|
        0 <= j < nodes.len() ==> {
            let node = #[trigger] nodes[j];
            &&& node.is_directory <==> node.source is None
            &&& node.source matches Some(f) ==> 0 <= f < n && node.file_size == files[f].1
                && node_path(nodes, j) == components(files[f].0)
            &&& node.is_directory ==> leads_to_a_file(node_path(nodes, j), files, n)
        }
    &&& forall|f: int|
        0 <= f < n ==> exists|j: int|
            0 <= j < nodes.len() && #[trigger] node_path(nodes, j) == components(
                (#[trigger] files[f]).0,
            )
}

proof fn lemma_add_files(nodes: Seq<NodeModel>, files: Seq<(Seq<char>, int)>, i: int)
    requires
        0 <= i <= files.len(),
        lists_files(nodes, files, i),
    ensures
        add_files(nodes, files, i) matches Ok(r) ==> lists_files(r, files, files.len() as int),
    decreases files.len() - i,
{
    if i < files.len() && components(files[i].0).len() > 0 {
        let parts = components(files[i].0);
        lemma_add_path(nodes, parts, 0, None, i, files[i].1);
        if let Some(m) = add_path(nodes, parts, 0, None, i, files[i].1) {
            assert forall|j: int| 0 <= j < m.len() implies ({
                let node = #[trigger] m[j];
                &&& node.is_directory <==> node.source is None
                &&& node.source matches Some(f) ==> 0 <= f < i + 1 && node.file_size == files[f].1
                    && node_path(m, j) == components(files[f].0)
                &&& node.is_directory ==> leads_to_a_file(node_path(m, j), files, i + 1)
            }) by {
                if j < nodes.len() {
                    assert(m.take(nodes.len() as int)[j] == m[j]);
                    assert(nodes[j] == m[j]);
                    lemma_node_path_prefix(nodes, m, j);
                    if m[j].is_directory {
                        let f = choose|f: int|
                            0 <= f < i && leads_to(
                                node_path(nodes, j),
                                components((#[trigger] files[f]).0),
                            );
                        assert(leads_to(node_path(m, j), components(files[f].0)));
                    }
                } else if m[j].is_directory {
                    assert(leads_to(node_path(m, j), components(files[i].0)));
                }
            }
            assert forall|f: int| 0 <= f < i + 1 implies exists|j: int|
                0 <= j < m.len() && #[trigger] node_path(m, j) == components(
                    (#[trigger] files[f]).0,
                ) by {
                if f < i {
                    let j = choose|j: int|
                        0 <= j < nodes.len() && #[trigger] node_path(nodes, j) == components(
                            files[f].0,
                        );
                    lemma_node_path_prefix(nodes, m, j);
                    assert(node_path(m, j) == components(files[f].0));
                }
            }
            lemma_add_files(m, files, i + 1);
        }
    }
}

/// In a planned listing every node comes after its parent, each node made for a file has that
/// file's path and size, and every file has a node with its path.
pub proof fn planned_listing_holds_the_files(files: Seq<(Seq<char>, int)>)
    ensures
        tree_of(files) matches Ok(nodes) ==> lists_files(nodes, files, files.len() as int),
{
    lemma_add_files(Seq::empty(), files, 0);
}

/// A file or directory of the package, in listing order.
pub struct PlanNode {
    pub name: String,
    pub is_directory: bool,
    pub parent: Option<usize>,
    pub source_file_index: Option<usize>,
    pub file_size: u32,
}

pub open spec fn opt_int(o: Option<usize>) -> Option<int> {
    match o {
        Some(i) => Some(i as int),
        None => None,
    }
}

impl PlanNode {
    pub open spec fn model(self) -> NodeModel {
        NodeModel {
            name: self.name@,
            is_directory: self.is_directory,
            parent: opt_int(self.parent),
            source: opt_int(self.source_file_index),
            file_size: self.file_size as int,
        }
    }
}

pub open spec fn node_models(nodes: Seq<PlanNode>) -> Seq<NodeModel> {
    nodes.map_values(|n: PlanNode| n.model())
}

fn same_index(a: Option<usize>, b: Option<usize>) -> (r: bool)
    ensures
        r == (a == b),
{
    match (a, b) {
        (Some(x), Some(y)) => x == y,
        (None, None) => true,
        _ => false,
    }
}

fn find_plan_node(nodes: &Vec<PlanNode>, parent: Option<usize>, name: &String) -> (r: Option<usize>)
    ensures
        opt_int(r) == find_node(node_models(nodes@), opt_int(parent), name@, 0),
        r matches Some(i) ==> i < nodes@.len(),
{
    let ghost m = node_models(nodes@);
    let mut i: usize = 0;
    while i < nodes.len()
        invariant
            i <= nodes@.len(),
            m == node_models(nodes@),
            find_node(m, opt_int(parent), name@, 0) == find_node(
                m,
                opt_int(parent),
                name@,
                i as int,
            ),
        decreases nodes@.len() - i,
    {
        assert(m[i as int] == nodes@[i as int].model());
        if same_index(nodes[i].parent, parent) && same_text(&nodes[i].name, name) {
            return Some(i);
        }
        i = i + 1;
    }
    None
}

/// The listing of a package made of `files`: each path's directories and its file, in order of
/// first appearance.
pub fn build_tree(files: &[(String, u64)]) -> (r: Result<Vec<PlanNode>, PlanError>)
    ensures
        match r {
            Ok(nodes) => tree_of(file_list(files@)) == Ok::<Seq<NodeModel>, PlanError>(
                node_models(nodes@),
            ),
            Err(e) => tree_of(file_list(files@)) == Err::<Seq<NodeModel>, PlanError>(e),
        },
{
    let ghost list = file_list(files@);
    let ghost goal = add_files(Seq::empty(), list, 0);
    let mut nodes: Vec<PlanNode> = Vec::new();
    let mut f: usize = 0;
    assert(node_models(nodes@) =~= Seq::empty());
    while f < files.len()
        invariant
            f <= files@.len(),
            list == file_list(files@),
            goal == add_files(Seq::empty(), list, 0),
            goal == add_files(node_models(nodes@), list, f as int),
        decreases files@.len() - f,
    {
        let parts = split_path(&files[f].0);
        let size: u64 = files[f].1;
        let ghost ps = components(list[f as int].0);
        assert(list[f as int] == (files@[f as int].0@, size as int));
        assert(ps.len() == parts@.len());
        if parts.len() == 0 {
            return Err(PlanError::EmptyPath);
        }
        let ghost start = node_models(nodes@);
        let mut depth: usize = 0;
        let mut parent: Option<usize> = None;
        while depth < parts.len()
            invariant
                depth <= parts@.len(),
                texts(parts@) == ps,
                ps.len() == parts@.len(),
                goal == add_files(Seq::empty(), list, 0),
                list == file_list(files@),
                goal == add_files(start, list, f as int),
                0 <= f < list.len(),
                ps == components(list[f as int].0),
                ps.len() > 0,
                size == list[f as int].1,
                add_path(start, ps, 0, None, f as int, size as int) == add_path(
                    node_models(nodes@),
                    ps,
                    depth as int,
                    opt_int(parent),
                    f as int,
                    size as int,
                ),
            decreases parts@.len() - depth,
        {
            let is_last = depth == parts.len() - 1;
            assert(texts(parts@)[depth as int] == parts@[depth as int]@);
            match find_plan_node(&nodes, parent, &parts[depth]) {
                Some(i) => {
                    parent = Some(i);
                },
                None => {
                    if is_last && size > 0xFFFF_FFFF {
                        return Err(PlanError::FileTooLarge);
                    }
                    let ghost before = nodes@;
                    let idx: usize = nodes.len();
                    let node = PlanNode {
                        name: parts[depth].clone(),
                        is_directory: !is_last,
                        parent,
                        source_file_index: if is_last {
                            Some(f)
                        } else {
                            None
                        },
                        file_size: if is_last {
                            size as u32
                        } else {
                            0
                        },
                    };
                    nodes.push(node);
                    assert(node_models(nodes@) =~= node_models(before).push(node.model()));
                    parent = Some(idx);
                },
            }
            depth = depth + 1;
        }
        f = f + 1;
    }
    assert(node_models(nodes@).len() == nodes@.len());
    if nodes.len() == 0 {
        return Err(PlanError::NoFiles);
    }
    if nodes.len() >= 0xFFFF {
        return Err(PlanError::TooManyEntries);
    }
    Ok(nodes)
}

} // verus!
