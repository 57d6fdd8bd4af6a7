//! The hash tree of a package.
//!
//! Level-0 tables hash data and file-table blocks, level-1 tables hash level-0 tables, and in
//! large packages one level-2 table hashes the level-1 tables. Each table holds up to 0xAA
//! records in one block.
use crate::bytes::{be_bytes, ceil_div, overwrite, write_at, write_be, zeroed, zeros};
use crate::digest::{sha1_digest, sha1_of};
use crate::stfs::format::Level;
use vstd::prelude::*;

verus! {

broadcast use crate::bytes::group_fields;

/// Entries per hash table at every level.
pub const ENTRIES_PER_TABLE: u32 = 0xAA;

pub const TABLE_SIZE: usize = 0x1000;

pub const RECORD_SIZE: usize = 0x18;

/// Offset of the count of blocks hashed, in tables above level 0.
pub const BLOCKS_HASHED_TRAILER_OFFSET: usize = 0xFF0;

/// Status byte and next block of a block's chain.
#[derive(Clone, Copy, Debug, PartialEq, Eq)]
pub struct BlockLink {
    pub status: u8,
    pub next_block: u32,
}

/// One block as it is hashed: its content and its chain link.
pub struct HashedBlock {
    pub content: Seq<u8>,
    pub link: BlockLink,
}

/// One record: digest, status, low 24 bits of the next block.
pub open spec fn record(hash: Seq<u8>, status: u8, next_block: u32) -> Seq<u8> {
    hash + seq![status] + be_bytes(next_block as nat, 3)
}

/// The record of a block in its level-0 table.
pub open spec fn leaf_record(b: HashedBlock) -> Seq<u8> {
    record(sha1_of(b.content), b.link.status, b.link.next_block)
}

/// The record of a table in the table above it.
pub open spec fn node_record(table: Seq<u8>) -> Seq<u8> {
    record(sha1_of(table), 0x80, 0)
}

pub open spec fn leaf_records(blocks: Seq<HashedBlock>) -> Seq<Seq<u8>> {
    blocks.map_values(|b: HashedBlock| leaf_record(b))
}

pub open spec fn node_records(tables: Seq<Seq<u8>>) -> Seq<Seq<u8>> {
    tables.map_values(|t: Seq<u8>| node_record(t))
}

/// Table `t` over `records`: record number `t * 0xAA + k` at slot `k`, zeros in unused space.
pub open spec fn record_table(records: Seq<Seq<u8>>, t: int) -> Seq<u8> {
    Seq::new(
        0x1000,
        |i: int|
            if i < 0xFF0 && t * 0xAA + i / 0x18 < records.len() {
                records[t * 0xAA + i / 0x18][i % 0x18]
            } else {
                0
            },
    )
}

/// A table above level 0: its records and how many blocks lie under it.
pub open spec fn counted_table(records: Seq<Seq<u8>>, t: int, blocks_under: int) -> Seq<u8> {
    overwrite(record_table(records, t), 0xFF0, be_bytes(blocks_under as nat, 4))
}

/// The level-0 tables over `blocks`; at least one, though it be empty.
pub open spec fn level0_tables(blocks: Seq<HashedBlock>) -> Seq<Seq<u8>> {
    Seq::new(
        if blocks.len() == 0 {
            1
        } else {
            ceil_div(blocks.len() as int, 0xAA) as nat
        },
        |t: int| record_table(leaf_records(blocks), t),
    )
}

/// How many of `n` blocks lie under level-1 table `j`.
pub open spec fn blocks_under_level1(n: int, j: int) -> int {
    if n < (j + 1) * 0x70E4 {
        n - j * 0x70E4
    } else {
        0x70E4
    }
}

/// The level-1 tables of a package that a level-2 table tops.
pub open spec fn level1_tables(blocks: Seq<HashedBlock>) -> Seq<Seq<u8>> {
    Seq::new(
        ceil_div(ceil_div(blocks.len() as int, 0xAA), 0xAA) as nat,
        |j: int|
            counted_table(
                node_records(level0_tables(blocks)),
                j,
                blocks_under_level1(blocks.len() as int, j),
            ),
    )
}

/// The table on top of the tree.
pub open spec fn top_table(level: Level, blocks: Seq<HashedBlock>) -> Seq<u8> {
    match level {
        Level::Zero => level0_tables(blocks)[0],
        Level::One => counted_table(
            node_records(level0_tables(blocks)),
            0,
            blocks.len() as int,
        ),
        Level::Two => counted_table(
            node_records(level1_tables(blocks)),
            0,
            blocks.len() as int,
        ),
    }
}

/// Whether the records of `blocks` blocks fit the tables of a tree with this top.
pub open spec fn level_holds(level: Level, blocks: int) -> bool {
    match level {
        Level::Zero => true,
        Level::One => blocks <= 0x70E4,
        Level::Two => blocks <= 0x4A_F768,
    }
}

/// What `tables` hold.
pub open spec fn views(tables: Seq<Vec<u8>>) -> Seq<Seq<u8>> {
    tables.map_values(|v: Vec<u8>| v@)
}

proof fn lemma_record_pushed(records: Seq<Seq<u8>>, r: Seq<u8>, t: int)
    requires
        r.len() == 0x18,
        0 <= t,
        t * 0xAA <= records.len() < (t + 1) * 0xAA,
    ensures
        overwrite(record_table(records, t), (records.len() - t * 0xAA) * 0x18, r) == record_table(
            records.push(r),
            t,
        ),
{
    let k = records.len() - t * 0xAA;
    let a = overwrite(record_table(records, t), k * 0x18, r);
    let b = record_table(records.push(r), t);
    assert forall|i: int| 0 <= i < 0x1000 implies a[i] == b[i] by {
        if k * 0x18 <= i < k * 0x18 + 0x18 {
            assert(i / 0x18 == k);
            assert(i % 0x18 == i - k * 0x18);
        } else {
            assert(i / 0x18 != k);
        }
    }
    assert(a =~= b);
}

proof fn lemma_other_table(records: Seq<Seq<u8>>, r: Seq<u8>, t: int)
    requires
        0 <= t,
        !(t * 0xAA <= records.len() < (t + 1) * 0xAA),
    ensures
        record_table(records.push(r), t) == record_table(records, t),
{
    assert(record_table(records.push(r), t) =~= record_table(records, t));
}

proof fn lemma_empty_table(t: int)
    requires
        0 <= t,
    ensures
        record_table(Seq::empty(), t) == zeros(0x1000),
{
    assert(record_table(Seq::empty(), t) =~= zeros(0x1000));
}

/// Writes one record at slot `local_index`.
fn write_record(buf: &mut Vec<u8>, local_index: u32, hash: &[u8; 20], link: BlockLink)
    requires
        old(buf)@.len() == TABLE_SIZE,
        local_index < ENTRIES_PER_TABLE,
    ensures
        final(buf)@ == overwrite(
            old(buf)@,
            local_index * 0x18,
            record(hash@, link.status, link.next_block),
        ),
{
    let off: usize = local_index as usize * RECORD_SIZE;
    write_at(buf, off, hash.as_slice());
    write_be(buf, off + 20, link.status as u64, 1);
    write_be(buf, off + 21, link.next_block as u64, 3);
    proof {
        let r = record(hash@, link.status, link.next_block);
        let nb = be_bytes(link.next_block as nat, 3);
        reveal_with_fuel(be_bytes, 2);
        assert(be_bytes(link.status as nat, 1) =~= seq![link.status]);
        assert(buf@ =~= overwrite(old(buf)@, off as int, r));
    }
}

/// Writes the count of blocks that a table above level 0 covers.
fn write_blocks_hashed_trailer(buf: &mut Vec<u8>, blocks_hashed: u32)
    requires
        old(buf)@.len() == TABLE_SIZE,
    ensures
        final(buf)@ == overwrite(old(buf)@, 0xFF0, be_bytes(blocks_hashed as nat, 4)),
{
    write_be(buf, BLOCKS_HASHED_TRAILER_OFFSET, blocks_hashed as u64, 4);
}

/// How many of a level-0 table's entries are blocks rather than unused space.
pub fn blocks_in_level0_table(table_idx: usize, level0_count: usize, total_blocks: u32) -> (r: u32)
    requires
        total_blocks > 0,
        level0_count == ceil_div(total_blocks as int, 0xAA),
        table_idx < level0_count,
    ensures
        r == (if (table_idx + 1) * 0xAA <= total_blocks {
            0xAA
        } else {
            total_blocks - table_idx * 0xAA
        }),
{
    if table_idx + 1 < level0_count {
        ENTRIES_PER_TABLE
    } else {
        let rem: u32 = total_blocks % ENTRIES_PER_TABLE;
        if rem == 0 {
            ENTRIES_PER_TABLE
        } else {
            rem
        }
    }
}

/// Each of the tables from number `from` to before `to` has a digest of full length.
pub open spec fn digests_full(tables: Seq<Seq<u8>>, from: int, to: int) -> bool {
    forall|t: int|
        from <= t < to && 0 <= t < tables.len() ==> sha1_of(#[trigger] tables[t]).len() == 20
}

/// Each block has a digest of full length.
pub open spec fn block_digests_full(blocks: Seq<HashedBlock>) -> bool {
    forall|i: int| 0 <= i < blocks.len() ==> sha1_of((#[trigger] blocks[i]).content).len() == 20
}

/// A finished tree, its tables in the order in which they are emitted.
pub struct HashTree {
    /// Level-0 tables; none when a level-0 table is the top.
    pub level0: Vec<Vec<u8>>,
    /// Level-1 tables below a level-2 top; none otherwise.
    pub level1: Vec<Vec<u8>>,
    pub top: Vec<u8>,
    /// Digest of the top table.
    pub top_hash: [u8; 20],
}

impl HashTree {
    /// This is the tree over `blocks` that a table of this level tops.
    pub open spec fn is_tree_of(&self, level: Level, blocks: Seq<HashedBlock>) -> bool {
        &&& views(self.level0@) == (if level == Level::Zero {
            Seq::empty()
        } else {
            level0_tables(blocks)
        })
        &&& views(self.level1@) == (if level == Level::Two {
            level1_tables(blocks)
        } else {
            Seq::empty()
        })
        &&& self.top@ == top_table(level, blocks)
        &&& self.top_hash@ == sha1_of(self.top@)
        &&& block_digests_full(blocks)
        &&& level != Level::Zero && blocks.len() > 0 ==> digests_full(
            level0_tables(blocks),
            0,
            level0_tables(blocks).len() as int,
        )
        &&& level == Level::Two ==> digests_full(
            level1_tables(blocks),
            0,
            level1_tables(blocks).len() as int,
        )
    }
}

/// Collects a tree, fed one block at a time.
pub struct HashTreeBuilder {
    top_level: Level,
    total_blocks: u32,
    level0_tables: Vec<Vec<u8>>,
    next_block: u32,
    blocks: Ghost<Seq<HashedBlock>>,
}

/// The table above `tables`, its records filled in.
fn table_over(tables: &Vec<Vec<u8>>, t: usize) -> (r: Vec<u8>)
    requires
        t < 0xAA,
        tables@.len() <= 0x1_0000,
    ensures
        r@ == record_table(node_records(views(tables@)), t as int),
        digests_full(views(tables@), t * 0xAA, (t + 1) * 0xAA),
{
    let ghost recs = node_records(views(tables@));
    let start: usize = t * 0xAA;
    let end: usize = if tables.len() < start + 0xAA {
        tables.len()
    } else {
        start + 0xAA
    };
    let mut buf: Vec<u8> = zeroed(TABLE_SIZE);
    let mut i: usize = start;
    proof {
        assert(buf@ =~= record_table(
            recs.take(if start <= recs.len() { start as int } else { recs.len() as int }),
            t as int,
        ));
    }
    while i < end
        invariant
            t < 0xAA,
            start == t * 0xAA,
            start <= i,
            i <= end || end < start,
            end <= start + 0xAA,
            end <= tables@.len(),
            tables@.len() <= 0x1_0000,
            recs == node_records(views(tables@)),
            buf@ == record_table(
                recs.take(if i <= recs.len() { i as int } else { recs.len() as int }),
                t as int,
            ),
            digests_full(views(tables@), start as int, i as int),
            end == start + 0xAA || end == tables@.len(),
        decreases end - i,
    {
        let h = sha1_digest(tables[i].as_slice());
        write_record(&mut buf, (i - start) as u32, &h, BlockLink { status: 0x80, next_block: 0 });
        proof {
            let r = node_record(tables@[i as int]@);
            assert(recs[i as int] == r);
            assert(views(tables@)[i as int] == tables@[i as int]@);
            lemma_record_pushed(recs.take(i as int), r, t as int);
            assert(recs.take(i + 1) =~= recs.take(i as int).push(r));
        }
        i = i + 1;
    }
    proof {
        let last = if i <= recs.len() { i as int } else { recs.len() as int };
        assert(record_table(recs.take(last), t as int) =~= record_table(recs, t as int));
    }
    buf
}

impl HashTreeBuilder {
    /// The blocks hashed so far, in order.
    pub closed spec fn hashed(&self) -> Seq<HashedBlock> {
        self.blocks@
    }

    pub closed spec fn level(&self) -> Level {
        self.top_level
    }

    /// How many blocks the tree is made for.
    pub closed spec fn total(&self) -> u32 {
        self.total_blocks
    }

    pub closed spec fn wf(&self) -> bool {
        &&& level_holds(self.top_level, self.total_blocks as int)
        &&& self.next_block == self.blocks@.len() <= self.total_blocks
        &&& self.level0_tables@.len() == (if self.total_blocks == 0 {
            1
        } else {
            ceil_div(self.total_blocks as int, 0xAA)
        })
        &&& forall|t: int|
            0 <= t < self.level0_tables@.len() ==> (#[trigger] self.level0_tables@[t])@
                == record_table(leaf_records(self.blocks@), t)
        &&& block_digests_full(self.blocks@)
    }

    /// A builder for `total_blocks` blocks.
    pub fn new(top_level: Level, total_blocks: u32) -> (r: HashTreeBuilder)
        requires
            level_holds(top_level, total_blocks as int),
        ensures
            r.wf(),
            r.hashed() == Seq::<HashedBlock>::empty(),
            r.level() == top_level,
            r.total() == total_blocks,
    {
        let count: u64 = if total_blocks == 0 {
            1
        } else {
            (total_blocks as u64 + 0xA9) / 0xAA
        };
        let mut level0_tables: Vec<Vec<u8>> = Vec::new();
        let mut i: u64 = 0;
        let ghost none = Seq::<HashedBlock>::empty();
        while i < count
            invariant
                i <= count,
                level0_tables@.len() == i,
                none == Seq::<HashedBlock>::empty(),
                forall|t: int|
                    0 <= t < level0_tables@.len() ==> (#[trigger] level0_tables@[t])@
                        == record_table(leaf_records(none), t),
            decreases count - i,
        {
            proof {
                assert(leaf_records(none) =~= Seq::empty());
                lemma_empty_table(i as int);
            }
            level0_tables.push(zeroed(TABLE_SIZE));
            i = i + 1;
        }
        HashTreeBuilder {
            top_level,
            total_blocks,
            level0_tables,
            next_block: 0,
            blocks: Ghost(Seq::empty()),
        }
    }

    /// Hashes the next block into its level-0 record. Blocks come in order, each once.
    pub fn hash_block(&mut self, block_num: u32, content: &[u8], link: BlockLink)
        requires
            old(self).wf(),
            block_num == old(self).hashed().len(),
            block_num < old(self).total(),
            content@.len() == TABLE_SIZE,
        ensures
            final(self).wf(),
            final(self).level() == old(self).level(),
            final(self).total() == old(self).total(),
            final(self).hashed() == old(self).hashed().push(
                HashedBlock { content: content@, link },
            ),
    {
        let table_idx: usize = (block_num / ENTRIES_PER_TABLE) as usize;
        let local: u32 = block_num % ENTRIES_PER_TABLE;
        let hash = sha1_digest(content);
        let ghost b = HashedBlock { content: content@, link };
        let ghost old_blocks = self.blocks@;
        let ghost new_blocks = old_blocks.push(b);
        let ghost old_tables = self.level0_tables@;
        write_record(&mut self.level0_tables[table_idx], local, &hash, link);
        self.next_block = self.next_block + 1;
        self.blocks = Ghost(new_blocks);
        proof {
            let recs = leaf_records(old_blocks);
            assert(leaf_records(new_blocks) =~= recs.push(leaf_record(b)));
            lemma_record_pushed(recs, leaf_record(b), table_idx as int);
            assert forall|t: int| 0 <= t < self.level0_tables@.len() implies (
            #[trigger] self.level0_tables@[t])@ == record_table(leaf_records(new_blocks), t) by {
                if t != table_idx {
                    assert(self.level0_tables@[t] == old_tables[t]);
                    lemma_other_table(recs, leaf_record(b), t);
                }
            }
        }
    }

    /// Rolls every table's digest up to the top. All blocks have been hashed.
    pub fn finish(self) -> (r: HashTree)
        requires
            self.wf(),
            self.hashed().len() == self.total(),
        ensures
            r.is_tree_of(self.level(), self.hashed()),
    {
        let ghost blocks = self.blocks@;
        let total: u32 = self.total_blocks;
        let level0 = self.level0_tables;
        assert(views(level0@) =~= level0_tables(blocks));
        match self.top_level {
            Level::Zero => {
                let top = copy_table(&level0[0]);
                let top_hash = sha1_digest(top.as_slice());
                let r = HashTree { level0: Vec::new(), level1: Vec::new(), top, top_hash };
                assert(views(r.level0@) =~= Seq::empty());
                assert(views(r.level1@) =~= Seq::empty());
                r
            },
            Level::One => {
                let mut top = table_over(&level0, 0);
                write_blocks_hashed_trailer(&mut top, total);
                let top_hash = sha1_digest(top.as_slice());
                let r = HashTree { level0, level1: Vec::new(), top, top_hash };
                assert(views(r.level1@) =~= Seq::empty());
                r
            },
            Level::Two => {
                let level1 = build_level1(&level0, total, Ghost(blocks));
                assert(views(level1@).len() == level1@.len());
                let mut top = table_over(&level1, 0);
                write_blocks_hashed_trailer(&mut top, total);
                let top_hash = sha1_digest(top.as_slice());
                HashTree { level0, level1, top, top_hash }
            },
        }
    }
}

fn copy_table(table: &Vec<u8>) -> (r: Vec<u8>)
    ensures
        r@ == table@,
{
    let r = crate::bytes::copy_range(table.as_slice(), 0, table.len());
    assert(r@ =~= table@);
    r
}

/// The level-1 tables over `level0`, each with the count of blocks under it.
fn build_level1(level0: &Vec<Vec<u8>>, total: u32, blocks: Ghost<Seq<HashedBlock>>) -> (r: Vec<
    Vec<u8>,
>)
    requires
        total == blocks@.len(),
        total <= 0x4A_F768,
        views(level0@) == level0_tables(blocks@),
    ensures
        views(r@) == level1_tables(blocks@),
        total > 0 ==> digests_full(
            level0_tables(blocks@),
            0,
            level0_tables(blocks@).len() as int,
        ),
{
    let ghost recs = node_records(level0_tables(blocks@));
    assert(views(level0@).len() == level0@.len());
    let level0_count: usize = level0.len();
    let count: usize = if total == 0 {
        0
    } else {
        (level0_count + 0xA9) / 0xAA
    };
    let mut level1: Vec<Vec<u8>> = Vec::new();
    let mut j: usize = 0;
    while j < count
        invariant
            j <= count <= 0xAA,
            total == blocks@.len(),
            total <= 0x4A_F768,
            level0@.len() == level0_count,
            views(level0@) == level0_tables(blocks@),
            recs == node_records(level0_tables(blocks@)),
            level0_count == (if total == 0 {
                1
            } else {
                ceil_div(total as int, 0xAA)
            }),
            count == ceil_div(ceil_div(total as int, 0xAA), 0xAA),
            level1@.len() == j,
            digests_full(level0_tables(blocks@), 0, j * 0xAA),
            forall|t: int|
                0 <= t < j ==> (#[trigger] level1@[t])@ == counted_table(
                    recs,
                    t,
                    blocks_under_level1(total as int, t),
                ),
        decreases count - j,
    {
        let mut table = table_over(level0, j);
        let start: usize = j * 0xAA;
        let end: usize = if level0_count < start + 0xAA {
            level0_count
        } else {
            start + 0xAA
        };
        let mut under: u32 = 0;
        let mut i: usize = start;
        while i < end
            invariant
                0 < total <= 0x4A_F768,
                j < count <= 0xAA,
                start == j * 0xAA,
                level0_count == ceil_div(total as int, 0xAA),
                start <= i <= end <= level0_count,
                under == (if i * 0xAA <= total {
                    (i - start) * 0xAA
                } else {
                    total - start * 0xAA
                }),
            decreases end - i,
        {
            under = under + blocks_in_level0_table(i, level0_count, total);
            i = i + 1;
        }
        write_blocks_hashed_trailer(&mut table, under);
        assert(under == blocks_under_level1(total as int, j as int));
        level1.push(table);
        j = j + 1;
    }
    assert(views(level1@) =~= level1_tables(blocks@));
    level1
}

} // verus!
