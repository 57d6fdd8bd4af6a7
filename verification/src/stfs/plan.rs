//! The plan of a package: its listing, its blocks, and the walk over its physical blocks.
use crate::bytes::{ceil_div, round_up};
use crate::stfs::format::{
    level_for, top_level_for, Level, BLOCK_SIZE, FILE_ENTRIES_PER_BLOCK, ROOT_ENTRY_INDEX,
};
use crate::stfs::layout::{
    build_tree, data_position, data_positions_increase, entry_block_count, entry_blocks, file_list,
    level0_position, level0_table_precedes_its_group, level1_position,
    level1_table_precedes_its_group, level2_position, node_models, opt_int,
    planned_listing_holds_the_files, shift_of, tree_of, BlockMap, NodeModel, PlanError, PlanNode,
    DEFAULT_HEADER_SIZE, END_OF_CHAIN, INSTALLER_HEADER_SIZE,
};
use vstd::prelude::*;

verus! {

/// One entry of the file listing.
pub struct PlannedEntry {
    pub name: String,
    pub is_directory: bool,
    /// `ROOT_ENTRY_INDEX` for root-level entries.
    pub parent_index: u16,
    pub is_contiguous: bool,
    /// 0 for directories.
    pub starting_block_num: u32,
    /// 0 for directories.
    pub file_size: u32,
    pub source_file_index: Option<usize>,
}

impl PlannedEntry {
    /// Data block `b` holds part of this file.
    pub open spec fn owns(self, b: int) -> bool {
        !self.is_directory && self.starting_block_num <= b < self.starting_block_num
            + entry_blocks(self.file_size as int)
    }

    /// The block after this file's last.
    pub open spec fn end_block(self) -> int {
        self.starting_block_num + entry_blocks(self.file_size as int)
    }
}

/// How many blocks the files among the first `k` nodes take.
pub open spec fn blocks_before(nodes: Seq<NodeModel>, k: int) -> int
    decreases k,
{
    if k <= 0 {
        0
    } else {
        blocks_before(nodes, k - 1) + (if nodes[k - 1].is_directory {
            0
        } else {
            entry_blocks(nodes[k - 1].file_size)
        })
    }
}

/// `e` is the listing entry of node `k`: files follow the listing's own `table_blocks` blocks
/// back to back, in listing order.
pub open spec fn is_entry_of(
    e: PlannedEntry,
    nodes: Seq<NodeModel>,
    table_blocks: int,
    k: int,
) -> bool {
    let n = nodes[k];
    &&& e.name@ == n.name
    &&& e.is_directory == n.is_directory
    &&& e.parent_index == (match n.parent {
        Some(p) => p,
        None => 0xFFFF,
    })
    &&& e.is_contiguous == !n.is_directory
    &&& e.starting_block_num == (if n.is_directory {
        0
    } else {
        table_blocks + blocks_before(nodes, k)
    })
    &&& e.file_size == n.file_size
    &&& opt_int(e.source_file_index) == n.source
}

proof fn lemma_blocks_before_mono(nodes: Seq<NodeModel>, i: int, j: int)
    requires
        0 <= i <= j <= nodes.len(),
        forall|k: int| 0 <= k < nodes.len() ==> (#[trigger] nodes[k]).file_size >= 0,
    ensures
        0 <= blocks_before(nodes, i) <= blocks_before(nodes, j),
    decreases j,
{
    if i < j {
        lemma_blocks_before_mono(nodes, i, j - 1);
        assert(nodes[j - 1].file_size >= 0);
    } else if i > 0 {
        lemma_blocks_before_mono(nodes, i - 1, i - 1);
        assert(nodes[i - 1].file_size >= 0);
    }
}

/// How many blocks the files of a listing take.
fn count_file_blocks(nodes: &Vec<PlanNode>) -> (r: u64)
    requires
        nodes@.len() < 0xFFFF,
    ensures
        r == blocks_before(node_models(nodes@), nodes@.len() as int),
        r <= 0xFFFF * 0x10_0000,
{
    let ghost m = node_models(nodes@);
    let mut total: u64 = 0;
    let mut i: usize = 0;
    while i < nodes.len()
        invariant
            i <= nodes@.len() < 0xFFFF,
            m == node_models(nodes@),
            total == blocks_before(m, i as int),
            total <= i * 0x10_0000,
        decreases nodes@.len() - i,
    {
        assert(m[i as int] == nodes@[i as int].model());
        if !nodes[i].is_directory {
            total = total + entry_block_count(nodes[i].file_size) as u64;
        }
        i = i + 1;
    }
    total
}

/// The listing entries of `nodes`, files laid out after the listing's own blocks.
pub fn assign_layout(nodes: &Vec<PlanNode>, file_table_block_count: u16) -> (r: (
    Vec<PlannedEntry>,
    u32,
))
    requires
        file_table_block_count + blocks_before(node_models(nodes@), nodes@.len() as int)
            <= u32::MAX,
        nodes@.len() < 0xFFFF,
        forall|i: int|
            0 <= i < nodes@.len() ==> ((#[trigger] nodes@[i]).parent matches Some(p) ==> p
                < nodes@.len()),
    ensures
        r.0@.len() == nodes@.len(),
        forall|k: int|
            0 <= k < nodes@.len() ==> is_entry_of(
                #[trigger] r.0@[k],
                node_models(nodes@),
                file_table_block_count as int,
                k,
            ),
        r.1 == file_table_block_count + blocks_before(node_models(nodes@), nodes@.len() as int),
{
    let ghost m = node_models(nodes@);
    let mut next_data_block: u32 = file_table_block_count as u32;
    let mut entries: Vec<PlannedEntry> = Vec::new();
    let mut i: usize = 0;
    proof {
        assert forall|k: int| 0 <= k < m.len() implies (#[trigger] m[k]).file_size >= 0 by {
            assert(m[k] == nodes@[k].model());
        }
    }
    while i < nodes.len()
        invariant
            i <= nodes@.len() < 0xFFFF,
            m == node_models(nodes@),
            file_table_block_count + blocks_before(m, nodes@.len() as int) <= u32::MAX,
            forall|k: int| 0 <= k < m.len() ==> (#[trigger] m[k]).file_size >= 0,
            forall|k: int|
                0 <= k < nodes@.len() ==> ((#[trigger] nodes@[k]).parent matches Some(p) ==> p
                    < nodes@.len()),
            next_data_block == file_table_block_count + blocks_before(m, i as int),
            entries@.len() == i,
            forall|k: int|
                0 <= k < i ==> is_entry_of(
                    #[trigger] entries@[k],
                    m,
                    file_table_block_count as int,
                    k,
                ),
        decreases nodes@.len() - i,
    {
        let node = &nodes[i];
        assert(m[i as int] == nodes@[i as int].model());
        let parent_index: u16 = match node.parent {
            Some(p) => p as u16,
            None => ROOT_ENTRY_INDEX,
        };
        let start: u32 = if node.is_directory {
            0
        } else {
            next_data_block
        };
        if !node.is_directory {
            proof {
                lemma_blocks_before_mono(m, i + 1, m.len() as int);
            }
            next_data_block = next_data_block + entry_block_count(node.file_size);
        }
        entries.push(
            PlannedEntry {
                name: node.name.clone(),
                is_directory: node.is_directory,
                parent_index,
                is_contiguous: !node.is_directory,
                starting_block_num: start,
                file_size: node.file_size,
                source_file_index: node.source_file_index,
            },
        );
        i = i + 1;
    }
    (entries, next_data_block)
}

/// A planned package.
pub struct StfsLayout {
    pub entries: Vec<PlannedEntry>,
    pub total_blocks: u32,
    pub top_level: Level,
    pub map: BlockMap,
    pub first_hash_table_address: u64,
    pub header_size: u32,
    pub file_table_block_count: u16,
    pub file_table_block_num: u32,
}

/// How many blocks the listing of `entries` entries takes.
pub open spec fn table_blocks(entries: int) -> int {
    ceil_div(entries, 0x40)
}

/// How many blocks a package of this listing has.
pub open spec fn planned_blocks(nodes: Seq<NodeModel>) -> int {
    table_blocks(nodes.len() as int) + blocks_before(nodes, nodes.len() as int)
}

/// Why no package of `files` can be planned, if so.
pub open spec fn plan_error(files: Seq<(Seq<char>, int)>) -> Option<PlanError> {
    match tree_of(files) {
        Err(e) => Some(e),
        Ok(nodes) => if level_for(planned_blocks(nodes)) is None {
            Some(PlanError::TooManyBlocks)
        } else {
            None
        },
    }
}

/// One physical block of a package.
#[derive(Clone, Copy, Debug, PartialEq, Eq)]
pub enum PhysicalStep {
    /// The level-0 table over these data blocks.
    HashLevel0 { group_start: u32, group_end: u32 },
    /// A level-1 or level-2 table.
    HashUpperLevel { at_top: bool, group_index: u32 },
    /// A data or file-table block.
    Data { block_num: u32 },
}

impl StfsLayout {
    /// This is the plan of a package with this listing.
    pub open spec fn is_plan_of(
        self,
        nodes: Seq<NodeModel>,
        block_separation: u8,
        has_installer_trailer: bool,
    ) -> bool {
        &&& self.entries@.len() == nodes.len()
        &&& forall|k: int|
            0 <= k < nodes.len() ==> is_entry_of(
                #[trigger] self.entries@[k],
                nodes,
                table_blocks(nodes.len() as int),
                k,
            )
        &&& self.file_table_block_count == table_blocks(nodes.len() as int)
        &&& self.file_table_block_num == 0
        &&& self.total_blocks == planned_blocks(nodes)
        &&& level_for(self.total_blocks as int) == Some(self.top_level)
        &&& self.map.sex_shift == shift_of(block_separation)
        &&& self.header_size == (if has_installer_trailer {
            INSTALLER_HEADER_SIZE
        } else {
            DEFAULT_HEADER_SIZE
        })
        &&& self.first_hash_table_address == round_up(self.header_size as int, 0x1000)
    }

    /// Blocks fit their level, files lie after the listing back to back, and every block
    /// after the listing belongs to a file.
    pub open spec fn wf(self) -> bool {
        &&& self.map.wf()
        &&& 1 <= self.entries@.len() < 0xFFFF
        &&& self.file_table_block_count == table_blocks(self.entries@.len() as int)
        &&& self.file_table_block_num == 0
        &&& self.file_table_block_count <= self.total_blocks
        &&& level_for(self.total_blocks as int) == Some(self.top_level)
        &&& self.header_size == DEFAULT_HEADER_SIZE || self.header_size == INSTALLER_HEADER_SIZE
        &&& self.first_hash_table_address == round_up(self.header_size as int, 0x1000)
        &&& forall|i: int|
            0 <= i < self.entries@.len() && !(#[trigger] self.entries@[i]).is_directory
                ==> self.file_table_block_count <= self.entries@[i].starting_block_num
                && self.entries@[i].end_block() <= self.total_blocks
        &&& forall|i: int, j: int|
            0 <= i < j < self.entries@.len() && !(#[trigger] self.entries@[i]).is_directory && !(
            #[trigger] self.entries@[j]).is_directory ==> self.entries@[i].end_block()
                <= self.entries@[j].starting_block_num
        &&& forall|b: int|
            self.file_table_block_count <= b < self.total_blocks ==> #[trigger] self.has_owner(b)
        &&& forall|i: int|
            0 <= i < self.entries@.len() ==> ((#[trigger] self.entries@[i]).is_directory
                <==> self.entries@[i].source_file_index is None)
    }

    pub open spec fn has_owner(self, b: int) -> bool {
        exists|i: int| 0 <= i < self.entries@.len() && (#[trigger] self.entries@[i]).owns(b)
    }

    /// Plans a package of `files`.
    pub fn plan(files: &[(String, u64)], block_separation: u8, has_installer_trailer: bool) -> (r:
        Result<StfsLayout, PlanError>)
        ensures
            match r {
                Ok(l) => {
                    &&& plan_error(file_list(files@)) is None
                    &&& l.is_plan_of(
                        tree_of(file_list(files@))->Ok_0,
                        block_separation,
                        has_installer_trailer,
                    )
                    &&& l.wf()
                },
                Err(e) => plan_error(file_list(files@)) == Some(e),
            },
    {
        let nodes = match build_tree(files) {
            Ok(n) => n,
            Err(e) => {
                return Err(e);
            },
        };
        let ghost m = node_models(nodes@);
        proof {
            planned_listing_holds_the_files(file_list(files@));
            assert(m.len() == nodes@.len());
            assert forall|i: int| 0 <= i < nodes@.len() implies ((
            #[trigger] nodes@[i]).parent matches Some(p) ==> p < nodes@.len()) by {
                assert(m[i] == nodes@[i].model());
            }
        }
        let file_table_block_count: u16 = ((nodes.len() + (FILE_ENTRIES_PER_BLOCK - 1))
            / FILE_ENTRIES_PER_BLOCK) as u16;
        let blocks: u64 = count_file_blocks(&nodes);
        let top_level = match top_level_for(file_table_block_count as u64 + blocks) {
            Some(l) => l,
            None => {
                return Err(PlanError::TooManyBlocks);
            },
        };
        let (entries, total_blocks) = assign_layout(&nodes, file_table_block_count);
        let header_size: u32 = if has_installer_trailer {
            INSTALLER_HEADER_SIZE
        } else {
            DEFAULT_HEADER_SIZE
        };
        let l = StfsLayout {
            entries,
            total_blocks,
            top_level,
            map: BlockMap::new(block_separation),
            first_hash_table_address: (header_size as u64 + 0xFFF) / 0x1000 * 0x1000,
            header_size,
            file_table_block_count,
            file_table_block_num: 0,
        };
        proof {
            assert(l.is_plan_of(m, block_separation, has_installer_trailer));
            assert forall|i: int| 0 <= i < m.len() implies (#[trigger] m[i]).file_size >= 0 && (
            m[i].is_directory <==> m[i].source is None) by {
                assert(m[i] == nodes@[i].model());
            }
            planned_layout_is_well_formed(l, m, block_separation, has_installer_trailer);
        }
        Ok(l)
    }

    pub fn compute_backing_data_block_number(&self, block_num: u64) -> (r: u64)
        requires
            block_num < 0x1000_0000_0000_0000,
        ensures
            r == data_position(self.map.c(), block_num as int),
    {
        self.map.compute_backing_data_block_number(block_num)
    }

    pub fn compute_level1_backing_hash_block_number(&self, block_num: u64) -> (r: u64)
        requires
            block_num < 0x1000_0000_0000_0000,
        ensures
            r == level1_position(self.map.c(), block_num as int),
    {
        self.map.compute_level1_backing_hash_block_number(block_num)
    }

    /// Physical block of the level-2 table; there is one, whatever the block.
    pub fn compute_level2_backing_hash_block_number(&self, _block_num: u64) -> (r: u64)
        ensures
            r == level2_position(self.map.c()),
    {
        self.map.compute_level2_backing_hash_block_number()
    }

    /// How many physical blocks follow the header.
    pub open spec fn physical_blocks(self) -> int {
        if self.total_blocks == 0 {
            0
        } else {
            data_position(self.map.c(), self.total_blocks - 1) + 1
        }
    }

    pub fn total_physical_blocks(&self) -> (r: u64)
        ensures
            r == self.physical_blocks(),
            r <= 0x4_0000_0000,
    {
        if self.total_blocks == 0 {
            return 0;
        }
        self.compute_backing_data_block_number(self.total_blocks as u64 - 1) + 1
    }

    /// Header and physical blocks, in bytes.
    pub fn total_output_size(&self) -> (r: u64)
        requires
            self.first_hash_table_address <= 0x1_0000_0000,
        ensures
            r == self.first_hash_table_address + self.physical_blocks() * 0x1000,
    {
        self.first_hash_table_address + self.total_physical_blocks() * BLOCK_SIZE
    }

    /// The first entry whose file data block `block_num` belongs to.
    pub fn entry_for_data_block(&self, block_num: u32) -> (r: Option<usize>)
        ensures
            match r {
                Some(i) => {
                    &&& i < self.entries@.len()
                    &&& self.entries@[i as int].owns(block_num as int)
                    &&& forall|j: int|
                        0 <= j < i ==> !(#[trigger] self.entries@[j]).owns(block_num as int)
                },
                None => !self.has_owner(block_num as int),
            },
    {
        let mut i: usize = 0;
        while i < self.entries.len()
            invariant
                i <= self.entries@.len(),
                forall|j: int|
                    0 <= j < i ==> !(#[trigger] self.entries@[j]).owns(block_num as int),
            decreases self.entries@.len() - i,
        {
            let e = &self.entries[i];
            if !e.is_directory && block_num >= e.starting_block_num && block_num
                - e.starting_block_num < entry_block_count(e.file_size) {
                return Some(i);
            }
            i = i + 1;
        }
        None
    }

    /// Data block `b` ends its chain: it is the listing's last block or the last of a file.
    pub open spec fn ends_chain(self, b: int) -> bool {
        if b < self.file_table_block_count {
            b + 1 == self.file_table_block_count
        } else {
            forall|i: int|
                0 <= i < self.entries@.len() && (#[trigger] self.entries@[i]).owns(b) ==> b + 1
                    == self.entries@[i].end_block()
        }
    }

    pub fn is_last_block_of_chain(&self, block_num: u32) -> (r: bool)
        requires
            self.wf(),
        ensures
            r == self.ends_chain(block_num as int),
    {
        if block_num < self.file_table_block_count as u32 {
            return block_num + 1 == self.file_table_block_count as u32;
        }
        match self.entry_for_data_block(block_num) {
            Some(idx) => {
                let e = &self.entries[idx];
                assert(!e.is_directory);
                let r = block_num - e.starting_block_num == entry_block_count(e.file_size) - 1;
                proof {
                    let b = block_num as int;
                    assert(self.entries@[idx as int].owns(b));
                    assert forall|i: int| 0 <= i < self.entries@.len() && (
                    #[trigger] self.entries@[i]).owns(b) implies i == idx by {
                        if i < idx {
                            assert(!self.entries@[i].is_directory);
                        } else if i > idx {
                            assert(!self.entries@[i].is_directory);
                            assert(!self.entries@[idx as int].is_directory);
                        }
                    }
                }
                r
            },
            None => true,
        }
    }

    /// The next block in the chain of data block `b`.
    pub open spec fn chain_next(self, b: int) -> u32 {
        if self.ends_chain(b) {
            END_OF_CHAIN
        } else {
            (b + 1) as u32
        }
    }

    /// The next block in the chain of `block_num`.
    pub fn next_in_chain(&self, block_num: u32) -> (r: u32)
        requires
            self.wf(),
            block_num < self.total_blocks,
        ensures
            r == self.chain_next(block_num as int),
    {
        if self.is_last_block_of_chain(block_num) {
            END_OF_CHAIN
        } else {
            block_num + 1
        }
    }

    /// What physical block `cursor` holds when `b` is the next data block.
    pub open spec fn step_at(self, cursor: int, b: int) -> PhysicalStep {
        let c = self.map.c();
        let at_level1 = self.top_level != Level::Zero && cursor == level1_position(c, b);
        let at_level2 = self.top_level == Level::Two && cursor == level2_position(c);
        if cursor >= data_position(c, b) {
            PhysicalStep::Data { block_num: b as u32 }
        } else if at_level1 || at_level2 {
            PhysicalStep::HashUpperLevel {
                at_top: at_level2 || self.top_level == Level::One,
                group_index: (b / 0x70E4) as u32,
            }
        } else {
            let start = b - b % 0xAA;
            PhysicalStep::HashLevel0 {
                group_start: start as u32,
                group_end: (if start + 0xAA < self.total_blocks {
                    start + 0xAA
                } else {
                    self.total_blocks as int
                }) as u32,
            }
        }
    }

    /// A walk that is at physical block `cursor` with `b` data blocks behind it has passed
    /// exactly those: it stands after block `b - 1` and not after block `b`.
    pub open spec fn on_course(self, cursor: int, b: int) -> bool {
        &&& 0 <= b <= self.total_blocks
        &&& 0 <= cursor
        &&& b < self.total_blocks ==> cursor <= data_position(self.map.c(), b)
        &&& b > 0 ==> data_position(self.map.c(), b - 1) < cursor
        &&& b == self.total_blocks ==> cursor == self.physical_blocks()
    }

    /// Takes one physical block in address order. A walk from `(0, 0)` takes every physical
    /// block once, each data block at its own position, and ends after the last.
    pub fn step_physical_block(&self, physical_cursor: &mut u64, block_num: &mut u32) -> (r: Option<
        PhysicalStep,
    >)
        requires
            self.wf(),
            *old(physical_cursor) < u64::MAX,
        ensures
            r is None <==> *old(block_num) >= self.total_blocks,
            r is None ==> *final(physical_cursor) == *old(physical_cursor) && *final(block_num)
                == *old(block_num),
            r matches Some(step) ==> {
                &&& step == self.step_at(*old(physical_cursor) as int, *old(block_num) as int)
                &&& *final(physical_cursor) == *old(physical_cursor) + 1
                &&& *final(block_num) == *old(block_num) + (if step is Data {
                    1int
                } else {
                    0
                })
            },
            self.on_course(*old(physical_cursor) as int, *old(block_num) as int) ==> {
                &&& self.on_course(*final(physical_cursor) as int, *final(block_num) as int)
                &&& r matches Some(PhysicalStep::Data { block_num: b }) ==> *old(physical_cursor)
                    == data_position(self.map.c(), b as int)
                &&& r is None ==> *old(physical_cursor) == self.physical_blocks()
            },
    {
        if *block_num >= self.total_blocks {
            return None;
        }
        let b: u32 = *block_num;
        let target: u64 = self.compute_backing_data_block_number(b as u64);
        if *physical_cursor < target {
            let at_level1 = self.top_level != Level::Zero && *physical_cursor
                == self.compute_level1_backing_hash_block_number(b as u64);
            let at_level2 = self.top_level == Level::Two && *physical_cursor
                == self.compute_level2_backing_hash_block_number(b as u64);
            let step = if at_level1 || at_level2 {
                PhysicalStep::HashUpperLevel {
                    at_top: at_level2 || self.top_level == Level::One,
                    group_index: b / 0x70E4,
                }
            } else {
                let group_start: u32 = b - b % 0xAA;
                let group_end: u32 = if group_start + 0xAA < self.total_blocks {
                    group_start + 0xAA
                } else {
                    self.total_blocks
                };
                PhysicalStep::HashLevel0 { group_start, group_end }
            };
            *physical_cursor = *physical_cursor + 1;
            return Some(step);
        }
        proof {
            if b + 1 < self.total_blocks {
                data_positions_increase(self.map.c(), b as int, b + 1);
            }
        }
        *physical_cursor = *physical_cursor + 1;
        *block_num = b + 1;
        Some(PhysicalStep::Data { block_num: b })
    }
}

proof fn lemma_owner(l: StfsLayout, nodes: Seq<NodeModel>, b: int, k: int)
    requires
        0 <= k <= nodes.len(),
        l.entries@.len() == nodes.len(),
        forall|i: int|
            0 <= i < nodes.len() ==> is_entry_of(
                #[trigger] l.entries@[i],
                nodes,
                table_blocks(nodes.len() as int),
                i,
            ),
        table_blocks(nodes.len() as int) <= b < table_blocks(nodes.len() as int) + blocks_before(
            nodes,
            k,
        ),
    ensures
        l.has_owner(b),
    decreases k,
{
    if k > 0 {
        if b < table_blocks(nodes.len() as int) + blocks_before(nodes, k - 1) {
            lemma_owner(l, nodes, b, k - 1);
        } else {
            assert(is_entry_of(l.entries@[k - 1], nodes, table_blocks(nodes.len() as int), k - 1));
            assert(l.entries@[k - 1].owns(b));
        }
    }
}

/// A planned layout is well-formed.
pub proof fn planned_layout_is_well_formed(
    l: StfsLayout,
    nodes: Seq<NodeModel>,
    block_separation: u8,
    has_installer_trailer: bool,
)
    requires
        l.is_plan_of(nodes, block_separation, has_installer_trailer),
        1 <= nodes.len() < 0xFFFF,
        forall|i: int|
            0 <= i < nodes.len() ==> (#[trigger] nodes[i]).file_size >= 0 && (nodes[i].is_directory
                <==> nodes[i].source is None),
    ensures
        l.wf(),
{
    let n = nodes.len() as int;
    let t = table_blocks(n);
    lemma_blocks_before_mono(nodes, 0, n);
    assert forall|i: int| 0 <= i < n implies is_entry_of(#[trigger] l.entries@[i], nodes, t, i) by {
    }
    assert forall|i: int| 0 <= i < n && !(#[trigger] l.entries@[i]).is_directory implies
        l.file_table_block_count <= l.entries@[i].starting_block_num && l.entries@[i].end_block()
        <= l.total_blocks by {
        lemma_blocks_before_mono(nodes, 0, i);
        lemma_blocks_before_mono(nodes, i + 1, n);
    }
    assert forall|i: int, j: int|
        0 <= i < j < n && !(#[trigger] l.entries@[i]).is_directory && !(
        #[trigger] l.entries@[j]).is_directory implies l.entries@[i].end_block()
        <= l.entries@[j].starting_block_num by {
        lemma_blocks_before_mono(nodes, i + 1, j);
    }
    assert forall|b: int|
        l.file_table_block_count <= b < l.total_blocks implies #[trigger] l.has_owner(b) by {
        lemma_owner(l, nodes, b, n);
    }
    assert forall|i: int| 0 <= i < n implies ((#[trigger] l.entries@[i]).is_directory
        <==> l.entries@[i].source_file_index is None) by {
        assert(nodes[i].file_size >= 0);
    }
}

/// Where a reader looks for the level-0 table of a block, the writer's walk puts that table.
pub proof fn level0_tables_stand_where_read(l: StfsLayout, b: int)
    requires
        l.wf(),
        0 <= b < l.total_blocks,
    ensures
        ({
            let g = b - b % 0xAA;
            let p = level0_position(l.map.c(), b);
            &&& l.on_course(p, g)
            &&& l.step_at(p, g) == PhysicalStep::HashLevel0 {
                group_start: g as u32,
                group_end: (if g + 0xAA < l.total_blocks {
                    g + 0xAA
                } else {
                    l.total_blocks as int
                }) as u32,
            }
        }),
{
    let c = l.map.c();
    let g = b - b % 0xAA;
    let p = level0_position(c, b);
    level0_table_precedes_its_group(c, b);
    assert(g % 0xAA == 0);
    assert(g / 0x70E4 == b / 0x70E4);
    let k = g / 0x70E4;
    if g >= 0x70E4 {
        level1_table_precedes_its_group(c, k);
        assert(k * 0x70E4 <= g);
        if k * 0x70E4 < g {
            data_positions_increase(c, k * 0x70E4, g - 1 + 1);
            if k * 0x70E4 < g - 1 {
                data_positions_increase(c, k * 0x70E4, g - 1);
            }
            level0_table_precedes_its_group(c, k * 0x70E4);
        }
        if c == 1 {
            assert(level1_position(1, g) == 1 + k * 0x718F);
            assert(p > 1 + k * 0x718F);
        } else {
            assert(level1_position(2, g) == 2 + k * 0x723A);
            assert(p > 2 + k * 0x723A);
        }
    }
}

/// Where a reader looks for a level-1 table, the writer's walk puts that table.
pub proof fn level1_tables_stand_where_read(l: StfsLayout, k: int)
    requires
        l.wf(),
        l.top_level != Level::Zero,
        0 <= k,
        k * 0x70E4 < l.total_blocks,
    ensures
        ({
            let b = if k == 0 {
                0xAA
            } else {
                k * 0x70E4
            };
            let p = level1_position(l.map.c(), k * 0x70E4);
            &&& l.on_course(p, b)
            &&& l.step_at(p, b) == PhysicalStep::HashUpperLevel {
                at_top: l.top_level == Level::One,
                group_index: k as u32,
            }
        }),
{
    let c = l.map.c();
    if k > 0 {
        level1_table_precedes_its_group(c, k);
        level0_table_precedes_its_group(c, k * 0x70E4);
        assert((k * 0x70E4) % 0xAA == 0);
        assert((k * 0x70E4) / 0x70E4 == k);
    } else {
        assert(data_position(c, 0xA9) == 0xA9 + c);
    }
}

/// Where a reader looks for the level-2 table, the writer's walk puts it.
pub proof fn level2_table_stands_where_read(l: StfsLayout)
    requires
        l.wf(),
        l.top_level == Level::Two,
    ensures
        l.on_course(level2_position(l.map.c()), 0x70E4),
        l.step_at(level2_position(l.map.c()), 0x70E4) == (PhysicalStep::HashUpperLevel {
            at_top: true,
            group_index: 1,
        }),
{
}

} // verus!
