//! What the hash tables of a written package hold, byte by byte.
use crate::bytes::{be_bytes, ceil_div, zeros};
use crate::digest::sha1_of;
use crate::pieces::end_to_end;
use crate::source::FileSource;
use crate::stfs::format::Level;
use crate::stfs::hash_tree::{
    counted_table, leaf_record, leaf_records, level0_tables, level1_tables, node_record,
    node_records, record, record_table, top_table,
};
use crate::stfs::layout::{
    data_position, level0_position, level1_position, level2_position,
};
use crate::stfs::places::{
    data_place, level0_place, level1_place, level2_place, positions_are_places,
    table_positions_are_places,
};
use crate::stfs::plan::{
    level0_tables_stand_where_read, level1_tables_stand_where_read, level2_table_stands_where_read,
};
use crate::stfs::round_trip::{
    block_at, finished_package, header_of_a_package_says, holds_blocks, is_ready, is_run,
    lemma_block_lies_within, lemma_slot, lemma_whole_run, lemma_written_at, plans_its_files,
};
use crate::stfs::write::{chunk_step, logical_block, StfsWriteError, StfsWriteSession, WritePhase};
use vstd::prelude::*;

verus! {

broadcast use crate::bytes::group_fields;

/// Where data block `b` stands. A package that is written has room for two copies of each table
/// and carries the first.
pub open spec fn data_at(first: int, b: int) -> int {
    data_place(first, 2, b)
}

/// Where the level-0 table number `t` stands.
pub open spec fn level0_at(first: int, t: int) -> int {
    level0_place(first, 2, t)
}

/// Where the level-1 table number `j` stands.
pub open spec fn level1_at(first: int, j: int) -> int {
    level1_place(first, 2, j)
}

/// Where the level-2 table stands.
pub open spec fn level2_at(first: int) -> int {
    level2_place(first, 2)
}

pub proof fn lemma_places(first: int, b: int)
    requires
        0 <= b,
    ensures
        data_at(first, b) == first + data_position(2, b) * 0x1000,
        level0_at(first, b / 0xAA) == first + level0_position(2, b) * 0x1000,
{
    positions_are_places(first, 2, b);
}

proof fn lemma_level0_place(first: int, t: int)
    requires
        0 <= t,
    ensures
        level0_at(first, t) == first + level0_position(2, t * 0xAA) * 0x1000,
{
    table_positions_are_places(first, 2, t);
}

proof fn lemma_level1_place(first: int, j: int)
    requires
        0 <= j,
    ensures
        level1_at(first, j) == first + level1_position(2, j * 0x70E4) * 0x1000,
        level2_at(first) == first + level2_position(2) * 0x1000,
{
    table_positions_are_places(first, 2, j);
}

/// Slot `k` of the table at `at` holds the digest of the block at `of`.
pub open spec fn slot_digests(img: Seq<u8>, at: int, k: int, of: int) -> bool {
    img.subrange(at + k * 0x18, at + k * 0x18 + 20) == sha1_of(img.subrange(of, of + 0x1000))
}

/// Slot `k` of the table at `at` has this status and this number of the next block.
pub open spec fn slot_says(img: Seq<u8>, at: int, k: int, status: u8, next: int) -> bool {
    &&& img[at + k * 0x18 + 20] == status
    &&& img[at + k * 0x18 + 21] == next / 0x1_0000 % 0x100
    &&& img[at + k * 0x18 + 22] == next / 0x100 % 0x100
    &&& img[at + k * 0x18 + 23] == next % 0x100
}

proof fn lemma_record_bytes(hash: Seq<u8>, status: u8, next: u32)
    requires
        hash.len() == 20,
    ensures
        record(hash, status, next).len() == 0x18,
        record(hash, status, next).take(20) == hash,
        record(hash, status, next)[20] == status,
        record(hash, status, next)[21] == next as int / 0x1_0000 % 0x100,
        record(hash, status, next)[22] == next as int / 0x100 % 0x100,
        record(hash, status, next)[23] == next as int % 0x100,
{
    reveal_with_fuel(be_bytes, 4);
    assert(record(hash, status, next).take(20) =~= hash);
    assert(next as int / 256 / 256 == next as int / 0x1_0000);
}

/// The record that stands in slot `k` of table `t` is there byte by byte.
proof fn lemma_slot_field(
    img: Seq<u8>,
    at: int,
    table: Seq<u8>,
    records: Seq<Seq<u8>>,
    t: int,
    k: int,
    hash: Seq<u8>,
    status: u8,
    next: u32,
)
    requires
        0 <= at,
        at + 0x1000 <= img.len(),
        img.subrange(at, at + 0x1000) == table,
        table.len() == 0x1000,
        forall|i: int| 0 <= i < 0xFF0 ==> #[trigger] table[i] == record_table(records, t)[i],
        0 <= t,
        0 <= k < 0xAA,
        t * 0xAA + k < records.len(),
        records[t * 0xAA + k] == record(hash, status, next),
        hash.len() == 20,
    ensures
        img.subrange(at + k * 0x18, at + k * 0x18 + 20) == hash,
        slot_says(img, at, k, status, next as int),
{
    lemma_record_bytes(hash, status, next);
    let r = record(hash, status, next);
    assert forall|j: int| 0 <= j < 0x18 implies #[trigger] img[at + k * 0x18 + j] == r[j] by {
        lemma_slot(records, t, k, j);
        assert(table[k * 0x18 + j] == img.subrange(at, at + 0x1000)[k * 0x18 + j]);
    }
    assert forall|j: int| 0 <= j < 20 implies img.subrange(at + k * 0x18, at + k * 0x18 + 20)[j]
        == #[trigger] hash[j] by {
        assert(img[at + k * 0x18 + j] == r[j]);
        assert(r.take(20)[j] == r[j]);
    }
    assert(img.subrange(at + k * 0x18, at + k * 0x18 + 20) =~= hash);
    assert(img[at + k * 0x18 + 20] == r[20]);
    assert(img[at + k * 0x18 + 21] == r[21]);
    assert(img[at + k * 0x18 + 22] == r[22]);
    assert(img[at + k * 0x18 + 23] == r[23]);
}

/// The block of the package that stands at physical block `p`.
proof fn lemma_block<F: FileSource>(s: StfsWriteSession<F>, img: Seq<u8>, p: int, b: int)
    requires
        is_ready(s),
        holds_blocks(s, img),
        0 <= b < s.layout.total_blocks,
        s.layout.on_course(p, b),
    ensures
        ({
            let at = s.layout.first_hash_table_address + p * 0x1000;
            &&& 0 <= at
            &&& at + 0x1000 <= img.len()
            &&& img.subrange(at, at + 0x1000) == s.block_content(s.layout.step_at(p, b))
        }),
{
    lemma_block_lies_within(s.layout, p, b);
    assert(block_at(s.layout, img, p) == s.block_content(s.layout.step_at(p, b)));
}

/// The level-0 table number `t` of a signed package.
proof fn lemma_level0_table<F: FileSource>(s: StfsWriteSession<F>, img: Seq<u8>, t: int)
    requires
        is_ready(s),
        s.signed,
        holds_blocks(s, img),
        0 <= t,
        t * 0xAA < s.layout.total_blocks,
    ensures
        ({
            let at = level0_at(s.layout.first_hash_table_address as int, t);
            &&& 0 <= at
            &&& at + 0x1000 <= img.len()
            &&& img.subrange(at, at + 0x1000) == record_table(leaf_records(s.blocks()), t)
            &&& t < level0_tables(s.blocks()).len()
            &&& level0_tables(s.blocks())[t] == record_table(leaf_records(s.blocks()), t)
        }),
{
    let l = s.layout;
    let b = t * 0xAA;
    assert(b / 0xAA == t);
    assert(b % 0xAA == 0);
    lemma_level0_place(l.first_hash_table_address as int, t);
    level0_tables_stand_where_read(l, b);
    lemma_block(s, img, level0_position(2, b), b);
    assert(s.blocks().len() == l.total_blocks);
    if l.top_level == Level::Zero {
        assert(l.total_blocks <= 0xAA);
        assert(t == 0);
    }
}

/// The table of level 1 number `j` of a signed package that has one.
proof fn lemma_level1_table<F: FileSource>(s: StfsWriteSession<F>, img: Seq<u8>, j: int)
    requires
        is_ready(s),
        s.signed,
        holds_blocks(s, img),
        s.layout.top_level != Level::Zero,
        0 <= j,
        j * 0x70E4 < s.layout.total_blocks,
    ensures
        ({
            let at = level1_at(s.layout.first_hash_table_address as int, j);
            let n = s.layout.total_blocks as int;
            &&& 0 <= at
            &&& at + 0x1000 <= img.len()
            &&& img.subrange(at, at + 0x1000) == counted_table(
                node_records(level0_tables(s.blocks())),
                j,
                if n < (j + 1) * 0x70E4 {
                    n - j * 0x70E4
                } else {
                    0x70E4
                },
            )
            &&& s.layout.top_level == Level::Two ==> j < level1_tables(s.blocks()).len()
                && level1_tables(s.blocks())[j] == img.subrange(at, at + 0x1000)
        }),
{
    let l = s.layout;
    let b = if j == 0 {
        0xAA
    } else {
        j * 0x70E4
    };
    lemma_level1_place(l.first_hash_table_address as int, j);
    level1_tables_stand_where_read(l, j);
    let p = level1_position(2, j * 0x70E4);
    assert(b < l.total_blocks);
    lemma_block(s, img, p, b);
    let n = s.blocks().len() as int;
    assert(n == l.total_blocks);
    if l.top_level == Level::One {
        assert(j == 0);
    } else {
        assert(j < ceil_div(ceil_div(n, 0xAA), 0xAA));
        assert(l.total_blocks <= 0x4A_F768);
        assert((j as u32) as int == j);
    }
}

/// Upper tables hold their records, below the count of what lies under them.
proof fn lemma_counted(records: Seq<Seq<u8>>, t: int, n: int)
    requires
        0 <= n < 0x1_0000_0000,
    ensures
        counted_table(records, t, n).len() == 0x1000,
        forall|i: int|
            0 <= i < 0xFF0 ==> #[trigger] counted_table(records, t, n)[i] == record_table(
                records,
                t,
            )[i],
        counted_table(records, t, n)[0xFF0] == n / 0x100_0000,
        counted_table(records, t, n)[0xFF1] == n / 0x1_0000 % 0x100,
        counted_table(records, t, n)[0xFF2] == n / 0x100 % 0x100,
        counted_table(records, t, n)[0xFF3] == n % 0x100,
{
    reveal_with_fuel(be_bytes, 5);
    assert(n / 256 / 256 == n / 0x1_0000);
    assert(n / 256 / 256 / 256 == n / 0x100_0000);
}

/// In a signed package every block is hashed: the record of block `b` begins with the SHA-1
/// digest of the block itself, as both stand in the package. It is marked as in use, and names
/// the block that follows `b` in its chain.
pub proof fn every_block_is_hashed<F: FileSource>(s: StfsWriteSession<F>, img: Seq<u8>, b: int)
    requires
        is_ready(s),
        s.signed,
        holds_blocks(s, img),
        0 <= b < s.layout.total_blocks,
    ensures
        ({
            let first = s.layout.first_hash_table_address as int;
            let table = level0_at(first, b / 0xAA);
            &&& data_at(first, b) + 0x1000 <= img.len()
            &&& slot_digests(img, table, b % 0xAA, data_at(first, b))
            &&& slot_says(img, table, b % 0xAA, 0x80, s.layout.chain_next(b) as int)
        }),
{
    let l = s.layout;
    let first = l.first_hash_table_address as int;
    let t = b / 0xAA;
    let k = b % 0xAA;
    let blocks = s.blocks();
    lemma_places(first, b);
    lemma_level0_table(s, img, t);
    lemma_written_at(s, img, b);
    assert(img.subrange(data_at(first, b), data_at(first, b) + 0x1000) == logical_block(
        l,
        s.files.contents(),
        s.created_timestamp,
        b,
    ));
    let recs = leaf_records(blocks);
    assert(t * 0xAA + k == b);
    assert(recs[b] == leaf_record(blocks[b]));
    assert(sha1_of(blocks[b].content).len() == 20);
    lemma_slot_field(
        img,
        level0_at(first, t),
        record_table(recs, t),
        recs,
        t,
        k,
        sha1_of(blocks[b].content),
        0x80,
        l.chain_next(b),
    );
}

/// In a signed package that has more than one level-0 table every one of them is hashed: its
/// record in the level-1 table over it begins with the SHA-1 digest of the table itself, as both
/// stand in the package, and is marked as in use. Every level-1 table ends with the number of
/// blocks under it.
pub proof fn every_level0_table_is_hashed<F: FileSource>(
    s: StfsWriteSession<F>,
    img: Seq<u8>,
    t: int,
)
    requires
        is_ready(s),
        s.signed,
        holds_blocks(s, img),
        s.layout.total_blocks > 0xAA,
        0 <= t,
        t * 0xAA < s.layout.total_blocks,
    ensures
        ({
            let first = s.layout.first_hash_table_address as int;
            let table = level1_at(first, t / 0xAA);
            let left = s.layout.total_blocks - t / 0xAA * 0x70E4;
            let under = if left < 0x70E4 {
                left
            } else {
                0x70E4
            };
            &&& slot_digests(img, table, t % 0xAA, level0_at(first, t))
            &&& slot_says(img, table, t % 0xAA, 0x80, 0)
            &&& img[table + 0xFF0] == 0
            &&& img[table + 0xFF1] == 0
            &&& img[table + 0xFF2] == under / 0x100
            &&& img[table + 0xFF3] == under % 0x100
        }),
{
    let l = s.layout;
    let first = l.first_hash_table_address as int;
    let j = t / 0xAA;
    let k = t % 0xAA;
    let blocks = s.blocks();
    assert(j * 0x70E4 <= t * 0xAA);
    lemma_level0_table(s, img, t);
    lemma_level1_table(s, img, j);
    let at = level1_at(first, j);
    let n = l.total_blocks as int;
    let left = n - j * 0x70E4;
    let under = if n < (j + 1) * 0x70E4 {
        left
    } else {
        0x70E4
    };
    let tables = level0_tables(blocks);
    let recs = node_records(tables);
    lemma_counted(recs, j, under);
    assert(recs[t] == node_record(tables[t]));
    assert(sha1_of(tables[t]).len() == 20);
    assert(j * 0xAA + k == t);
    let table = img.subrange(at, at + 0x1000);
    lemma_slot_field(img, at, table, recs, j, k, sha1_of(tables[t]), 0x80, 0);
    assert(img[at + 0xFF0] == table[0xFF0]);
    assert(img[at + 0xFF1] == table[0xFF1]);
    assert(img[at + 0xFF2] == table[0xFF2]);
    assert(img[at + 0xFF3] == table[0xFF3]);
}

/// In a signed package that has more than one level-1 table every one of them is hashed: its
/// record in the level-2 table begins with the SHA-1 digest of the table itself, as both stand in
/// the package.
pub proof fn every_level1_table_is_hashed<F: FileSource>(
    s: StfsWriteSession<F>,
    img: Seq<u8>,
    j: int,
)
    requires
        is_ready(s),
        s.signed,
        holds_blocks(s, img),
        s.layout.total_blocks > 0x70E4,
        0 <= j,
        j * 0x70E4 < s.layout.total_blocks,
    ensures
        ({
            let first = s.layout.first_hash_table_address as int;
            let n = s.layout.total_blocks as int;
            let table = level2_at(first);
            &&& slot_digests(img, table, j, level1_at(first, j))
            &&& slot_says(img, table, j, 0x80, 0)
            &&& img[table + 0xFF0] == 0
            &&& img[table + 0xFF1] == n / 0x1_0000
            &&& img[table + 0xFF2] == n / 0x100 % 0x100
            &&& img[table + 0xFF3] == n % 0x100
        }),
{
    let l = s.layout;
    let first = l.first_hash_table_address as int;
    let blocks = s.blocks();
    let n = l.total_blocks as int;
    lemma_level1_table(s, img, j);
    lemma_level1_place(first, j);
    level2_table_stands_where_read(l);
    lemma_block(s, img, level2_position(2), 0x70E4);
    let at = level2_at(first);
    let tables = level1_tables(blocks);
    let recs = node_records(tables);
    assert(blocks.len() == n);
    lemma_counted(recs, 0, n);
    assert(recs[j] == node_record(tables[j]));
    assert(sha1_of(tables[j]).len() == 20);
    assert(n <= 0x4A_F768);
    let table = img.subrange(at, at + 0x1000);
    lemma_slot_field(img, at, table, recs, 0, j, sha1_of(tables[j]), 0x80, 0);
    assert(img[at + 0xFF0] == table[0xFF0]);
    assert(img[at + 0xFF1] == table[0xFF1]);
    assert(img[at + 0xFF2] == table[0xFF2]);
    assert(img[at + 0xFF3] == table[0xFF3]);
}

/// Where the table on top of the tree of a package of `n` blocks stands.
pub open spec fn top_place(first: int, n: int) -> int {
    if n <= 0xAA {
        level0_at(first, 0)
    } else if n <= 0x70E4 {
        level1_at(first, 0)
    } else {
        level2_at(first)
    }
}

/// The 20 bytes at 0x381 of a signed package are the SHA-1 digest of the table on top of its
/// tree, as it stands in the package.
pub proof fn top_table_is_hashed<F: FileSource>(s: StfsWriteSession<F>, img: Seq<u8>)
    requires
        is_ready(s),
        s.signed,
        holds_blocks(s, img),
        s.is_header(img.take(s.layout.first_hash_table_address as int)),
    ensures
        ({
            let at = top_place(
                s.layout.first_hash_table_address as int,
                s.layout.total_blocks as int,
            );
            img.subrange(0x381, 0x395) == sha1_of(img.subrange(at, at + 0x1000))
        }),
{
    let l = s.layout;
    let first = l.first_hash_table_address as int;
    let n = l.total_blocks as int;
    let blocks = s.blocks();
    let at = top_place(first, n);
    assert(blocks.len() == n);
    assert(img.subrange(at, at + 0x1000) == top_table(l.top_level, blocks)) by {
        if n <= 0xAA {
            lemma_level0_table(s, img, 0);
        } else if n <= 0x70E4 {
            lemma_level1_table(s, img, 0);
        } else {
            lemma_level1_place(first, 0);
            level2_table_stands_where_read(l);
            lemma_block(s, img, level2_position(2), 0x70E4);
        }
    }
    header_of_a_package_says(s, img);
}

/// An unsigned package is hashed nowhere: every record of a block begins with 20 zeros, marks the
/// block as in use and names the one that follows it in its chain; the tables above are zero, and
/// so is the digest in the header.
pub proof fn unsigned_package_is_not_hashed<F: FileSource>(
    s: StfsWriteSession<F>,
    img: Seq<u8>,
    b: int,
)
    requires
        is_ready(s),
        !s.signed,
        holds_blocks(s, img),
        s.is_header(img.take(s.layout.first_hash_table_address as int)),
        0 <= b < s.layout.total_blocks,
    ensures
        ({
            let first = s.layout.first_hash_table_address as int;
            let table = level0_at(first, b / 0xAA);
            let k = b % 0xAA;
            &&& img.subrange(table + k * 0x18, table + k * 0x18 + 20) == zeros(20)
            &&& slot_says(img, table, k, 0x80, s.layout.chain_next(b) as int)
            &&& img.subrange(0x381, 0x395) == zeros(20)
            &&& s.layout.total_blocks > 0xAA ==> img.subrange(
                level1_at(first, b / 0x70E4),
                level1_at(first, b / 0x70E4) + 0x1000,
            ) == zeros(0x1000)
            &&& s.layout.total_blocks > 0x70E4 ==> img.subrange(
                level2_at(first),
                level2_at(first) + 0x1000,
            ) == zeros(0x1000)
        }),
{
    let l = s.layout;
    let first = l.first_hash_table_address as int;
    let g = b - b % 0xAA;
    let t = b / 0xAA;
    let k = b % 0xAA;
    let p = level0_position(2, b);
    lemma_places(first, b);
    level0_tables_stand_where_read(l, b);
    lemma_block(s, img, p, g);
    let end = if g + 0xAA < l.total_blocks {
        g + 0xAA
    } else {
        l.total_blocks as int
    };
    let recs = Seq::new((end - g) as nat, |i: int| record(zeros(20), 0x80, l.chain_next(g + i)));
    let at = level0_at(first, t);
    assert(img.subrange(at, at + 0x1000) == record_table(recs, 0));
    assert(recs[k] == record(zeros(20), 0x80, l.chain_next(b)));
    lemma_slot_field(
        img,
        at,
        record_table(recs, 0),
        recs,
        0,
        k,
        zeros(20),
        0x80,
        l.chain_next(b),
    );
    header_of_a_package_says(s, img);
    if l.total_blocks > 0xAA {
        let j = b / 0x70E4;
        lemma_level1_place(first, j);
        level1_tables_stand_where_read(l, j);
        let c = if j == 0 {
            0xAA
        } else {
            j * 0x70E4
        };
        lemma_block(s, img, level1_position(2, j * 0x70E4), c);
        if l.total_blocks > 0x70E4 {
            level2_table_stands_where_read(l);
            lemma_block(s, img, level2_position(2), 0x70E4);
        }
    }
}

/// `img` is what a session hands out from beginning to end.
pub open spec fn is_output<F: FileSource>(
    states: Seq<StfsWriteSession<F>>,
    sizes: Seq<usize>,
    chunks: Seq<Vec<u8>>,
    end: StfsWriteSession<F>,
    last_size: usize,
    has_installer: bool,
    img: Seq<u8>,
) -> bool {
    &&& states[0].wf()
    &&& states[0].hashing_done
    &&& states[0].phase == WritePhase::Header
    &&& plans_its_files(states[0], has_installer)
    &&& is_run(states, sizes, chunks)
    &&& chunk_step(
        states.last(),
        end,
        last_size,
        Ok::<Option<Vec<u8>>, StfsWriteError>(None),
    )
    &&& img == end_to_end(chunks)
}

pub proof fn lemma_output<F: FileSource>(
    states: Seq<StfsWriteSession<F>>,
    sizes: Seq<usize>,
    chunks: Seq<Vec<u8>>,
    end: StfsWriteSession<F>,
    last_size: usize,
    has_installer: bool,
    img: Seq<u8>,
)
    requires
        is_output(states, sizes, chunks, end, last_size, has_installer, img),
    ensures
        is_ready(end),
        holds_blocks(end, img),
        end.is_header(img.take(end.layout.first_hash_table_address as int)),
        end.layout == states[0].layout,
        end.signed == states[0].signed,
        end.same_package(&states[0]),
        img.len() >= end.layout.first_hash_table_address,
        end.layout.first_hash_table_address == (if has_installer {
            0xB000int
        } else {
            0xA000
        }),
{
    lemma_whole_run(states, sizes, chunks, end, last_size);
    finished_package(end, img);
}

/// The bytes that a signed session hands out from beginning to end vouch for each other, from the
/// digest at 0x381 down: it is that of the table on top; each record of a table is that of the
/// table it stands for; and each record of a level-0 table is that of its block. The tables begin
/// at 0xA000, or at 0xB000 behind an installer trailer.
pub proof fn signed_run_hashes_itself<F: FileSource>(
    states: Seq<StfsWriteSession<F>>,
    sizes: Seq<usize>,
    chunks: Seq<Vec<u8>>,
    end: StfsWriteSession<F>,
    last_size: usize,
    has_installer: bool,
    img: Seq<u8>,
    b: int,
)
    requires
        is_output(states, sizes, chunks, end, last_size, has_installer, img),
        states[0].signed,
        0 <= b < states[0].layout.total_blocks,
    ensures
        ({
            let first = if has_installer {
                0xB000int
            } else {
                0xA000
            };
            let n = states[0].layout.total_blocks as int;
            let t = b / 0xAA;
            let j = b / 0x70E4;
            let top = top_place(first, n);
            &&& data_at(first, b) + 0x1000 <= img.len()
            &&& slot_digests(img, level0_at(first, t), b % 0xAA, data_at(first, b))
            &&& n > 0xAA ==> slot_digests(
                img,
                level1_at(first, j),
                t % 0xAA,
                level0_at(first, t),
            )
            &&& n > 0x70E4 ==> slot_digests(img, level2_at(first), j, level1_at(first, j))
            &&& img.subrange(0x381, 0x395) == sha1_of(img.subrange(top, top + 0x1000))
        }),
{
    lemma_output(states, sizes, chunks, end, last_size, has_installer, img);
    let t = b / 0xAA;
    every_block_is_hashed(end, img, b);
    top_table_is_hashed(end, img);
    assert(t / 0xAA == b / 0x70E4);
    if end.layout.total_blocks > 0xAA {
        every_level0_table_is_hashed(end, img, t);
    }
    if end.layout.total_blocks > 0x70E4 {
        every_level1_table_is_hashed(end, img, b / 0x70E4);
    }
}

} // verus!
