//! What a package that was written reads back as.
use crate::bytes::{
    be_bytes, be_val, ceil_div, field, le_bytes, lemma_be_round_trip, lemma_pow256, overwrite, zeros,
};
use crate::pieces::end_to_end;
use crate::source::{ByteSource, FileSource};
use crate::stfs::format::{header_prefix_of, metadata_reads, Level, StfsMetadata};
use crate::stfs::hash_tree::{
    counted_table, leaf_record, leaf_records, level0_tables, level1_tables, node_record,
    node_records, record, record_table,
};
use crate::stfs::header::{
    header_fields_stand_in_place, header_image, header_reads_back, is_header_metadata,
    lemma_plain_license, DEFAULT_BLOCK_SEPARATION,
};
use crate::stfs::layout::{
    data_position, data_positions_increase, leads_to, level0_position, level1_position,
    level2_position, lists_files, node_path, planned_listing_holds_the_files, positions_are_bounded,
    tree_of, NodeModel, END_OF_CHAIN,
};
use crate::stfs::listed::{
    is_listed_as, is_planned, lemma_block_entries, lemma_listed_files, lemma_listed_where,
    lemma_parents, names_storable, paths_apart, planned_file, planned_files,
    planned_files_keep_their_order, planned_models, planned_paths_differ, starts_fit, storable,
};
use crate::stfs::listing::{file_models, EntryModel, ListedFile, StfsReadError};
use crate::stfs::plan::{
    is_entry_of, level0_tables_stand_where_read, level1_tables_stand_where_read,
    level2_table_stands_where_read, table_blocks, PhysicalStep, StfsLayout,
};
use crate::stfs::read::{
    copy_offset, geometry_of, header_of, level1_address, level1_group, level1_statuses, package_of,
    tables_of, top_statuses, Geometry, StfsReader, Tables,
};
use crate::stfs::write::{
    chunk_step, logical_block, opt_text, owner, StfsWriteError, StfsWriteSession, WritePhase,
};
use crate::utils::paths::{components, is_component, joined, joined_splits};
use crate::utils::safe_path::is_separator;
use vstd::prelude::*;

verus! {

broadcast use crate::bytes::group_fields;

/// Physical block `p` of a package.
pub open spec fn block_at(l: StfsLayout, img: Seq<u8>, p: int) -> Seq<u8> {
    field(img, l.first_hash_table_address + p * 0x1000, 0x1000)
}

/// `img` has the size of the package that `s` writes, and every physical block of it.
pub open spec fn holds_blocks<F: FileSource>(s: StfsWriteSession<F>, img: Seq<u8>) -> bool {
    &&& img.len() == s.package_size()
    &&& forall|p: int, b: int|
        0 <= b < s.layout.total_blocks && #[trigger] s.layout.on_course(p, b) ==> block_at(
            s.layout,
            img,
            p,
        ) == s.block_content(s.layout.step_at(p, b))
}

/// The session is ready to write, and writes tables where a reader looks for them.
pub open spec fn is_ready<F: FileSource>(s: StfsWriteSession<F>) -> bool {
    &&& s.wf()
    &&& s.hashing_done
    &&& s.layout.map.sex_shift == 1
    &&& s.layout.total_blocks > 0
}

/// The geometry that a reader takes from the header of the package.
pub open spec fn written_geometry(l: StfsLayout) -> Geometry {
    Geometry {
        first_hash_table_address: l.first_hash_table_address as int,
        block_separation: DEFAULT_BLOCK_SEPARATION,
        allocated: l.total_blocks as int,
        level: l.top_level,
    }
}

/// Every block that the plan names lies within the package.
pub proof fn lemma_block_lies_within(l: StfsLayout, p: int, b: int)
    requires
        l.wf(),
        l.on_course(p, b),
        0 <= b < l.total_blocks,
    ensures
        0 <= p < l.physical_blocks(),
{
    if b < l.total_blocks - 1 {
        data_positions_increase(l.map.c(), b, l.total_blocks - 1);
    }
}

/// The bytes of one record in its table.
pub proof fn lemma_slot(records: Seq<Seq<u8>>, t: int, k: int, j: int)
    requires
        0 <= t,
        0 <= k < 0xAA,
        0 <= j < 0x18,
    ensures
        record_table(records, t)[k * 0x18 + j] == (if t * 0xAA + k < records.len() {
            records[t * 0xAA + k][j]
        } else {
            0
        }),
        record_table(records, t).len() == 0x1000,
{
    let i = k * 0x18 + j;
    assert(i / 0x18 == k);
    assert(i % 0x18 == j);
}

/// The level-0 table of block `b` gives the block that follows it.
proof fn lemma_record_field<F: FileSource>(s: StfsWriteSession<F>, img: Seq<u8>, b: int)
    requires
        is_ready(s),
        holds_blocks(s, img),
        0 <= b < s.layout.total_blocks,
    ensures
        field(
            block_at(s.layout, img, level0_position(2, b)),
            b % 0xAA * 0x18 + 0x15,
            3,
        ) == be_bytes(s.layout.chain_next(b) as nat, 3),
{
    let l = s.layout;
    let g = b - b % 0xAA;
    let k = b % 0xAA;
    let p = level0_position(2, b);
    level0_tables_stand_where_read(l, b);
    let table = block_at(l, img, p);
    let step = l.step_at(p, g);
    assert(table == s.block_content(step));
    let next = be_bytes(l.chain_next(b) as nat, 3);
    assert(g / 0xAA * 0xAA == g);
    assert forall|j: int| 0 <= j < 3 implies table[k * 0x18 + (0x15 + j)] == #[trigger] next[j] by {
        if !s.signed {
            let end = if g + 0xAA < l.total_blocks {
                g + 0xAA
            } else {
                l.total_blocks as int
            };
            let recs = Seq::new(
                (end - g) as nat,
                |i: int| record(zeros(20), 0x80, l.chain_next(g + i)),
            );
            assert(table == record_table(recs, 0));
            lemma_slot(recs, 0, k, 0x15 + j);
            assert(recs[k] == record(zeros(20), 0x80, l.chain_next(b)));
        } else {
            let blocks = s.blocks();
            let recs = leaf_records(blocks);
            assert(table == record_table(recs, g / 0xAA));
            lemma_slot(recs, g / 0xAA, k, 0x15 + j);
            assert(recs[b] == leaf_record(blocks[b]));
            assert(crate::digest::sha1_of(blocks[b].content).len() == 20);
        }
    }
    assert(field(table, k * 0x18 + 0x15, 3) =~= next);
}

/// Every status in a table of tables points to the first copy.
proof fn lemma_status(tables: Seq<Seq<u8>>, t: int, k: int, n: int)
    requires
        0 <= t,
        0 <= k < 0xAA,
        crate::stfs::hash_tree::digests_full(tables, 0, tables.len() as int),
    ensures
        copy_offset(counted_table(node_records(tables), t, n)[k * 0x18 + 0x14]) == 0,
{
    let recs = node_records(tables);
    lemma_slot(recs, t, k, 0x14);
    if t * 0xAA + k < recs.len() {
        assert(recs[t * 0xAA + k] == node_record(tables[t * 0xAA + k]));
        assert(crate::digest::sha1_of(tables[t * 0xAA + k]).len() == 20);
    }
}

/// A table above level 0 stands at physical block `p`: its statuses are all there, and point to
/// the first copy.
spec fn is_upper_table(l: StfsLayout, img: Seq<u8>, p: int) -> bool {
    &&& 0 <= p
    &&& l.first_hash_table_address + p * 0x1000 + 0x1000 <= img.len()
    &&& forall|k: int|
        0 <= k < 0xAA ==> copy_offset(
            #[trigger] img[l.first_hash_table_address + p * 0x1000 + k * 0x18 + 0x14],
        ) == 0
}

proof fn lemma_upper_table<F: FileSource>(s: StfsWriteSession<F>, img: Seq<u8>, p: int, b: int)
    requires
        is_ready(s),
        holds_blocks(s, img),
        0 <= b < s.layout.total_blocks,
        s.layout.on_course(p, b),
        s.layout.step_at(p, b) matches PhysicalStep::HashUpperLevel { at_top, group_index }
            && (at_top || (s.layout.top_level == Level::Two && group_index * 0x70E4
            < s.layout.total_blocks)),
        s.layout.top_level != Level::Zero,
    ensures
        is_upper_table(s.layout, img, p),
{
    let l = s.layout;
    lemma_block_lies_within(l, p, b);
    let table = block_at(l, img, p);
    let at = l.first_hash_table_address + p * 0x1000;
    assert(table == s.block_content(l.step_at(p, b)));
    let blocks = s.blocks();
    assert forall|k: int| 0 <= k < 0xAA implies copy_offset(#[trigger] img[at + k * 0x18 + 0x14])
        == 0 by {
        assert(img[at + k * 0x18 + 0x14] == table[k * 0x18 + 0x14]);
        if s.signed {
            if let PhysicalStep::HashUpperLevel { at_top, group_index } = l.step_at(p, b) {
                let n = blocks.len() as int;
                if at_top && l.top_level == Level::One {
                    lemma_status(level0_tables(blocks), 0, k, n);
                } else if at_top {
                    lemma_status(level1_tables(blocks), 0, k, n);
                } else {
                    let j = group_index as int;
                    assert(j < level1_tables(blocks).len());
                    lemma_status(
                        level0_tables(blocks),
                        j,
                        k,
                        crate::stfs::hash_tree::blocks_under_level1(n, j),
                    );
                }
            }
        }
    }
}

/// The tables of a package as a reader finds them: every status points to the first copy.
pub open spec fn first_copies(t: Tables) -> bool {
    &&& t.g.level != Level::Zero ==> forall|k: int|
        0 <= k < t.top.len() ==> copy_offset(#[trigger] t.top[k]) == 0
    &&& forall|k: int, i: int|
        0 <= k < t.level1.len() && 0 <= i < 0xAA ==> copy_offset(#[trigger] t.level1[k][i]) == 0
}

proof fn lemma_level1_groups<F: FileSource>(
    s: StfsWriteSession<F>,
    img: Seq<u8>,
    top: Seq<u8>,
    k: int,
)
    requires
        is_ready(s),
        holds_blocks(s, img),
        s.layout.top_level == Level::Two,
        0 <= k <= top.len(),
        top.len() == ceil_div(s.layout.total_blocks as int, 0x70E4),
        forall|i: int| 0 <= i < top.len() ==> copy_offset(#[trigger] top[i]) == 0,
    ensures
        level1_statuses(img, written_geometry(s.layout), top, k) matches Some(groups)
            && groups.len() == k && forall|j: int, i: int|
            0 <= j < k && 0 <= i < 0xAA ==> copy_offset(#[trigger] groups[j][i]) == 0,
    decreases k,
{
    let l = s.layout;
    let g = written_geometry(l);
    if k > 0 {
        lemma_level1_groups(s, img, top, k - 1);
        let j = k - 1;
        assert(j * 0x70E4 < l.total_blocks);
        level1_tables_stand_where_read(l, j);
        let b = if j == 0 {
            0xAA
        } else {
            j * 0x70E4
        };
        let p = level1_position(2, j * 0x70E4);
        lemma_upper_table(s, img, p, b);
        assert(copy_offset(top[j]) == 0);
        let at = level1_address(g, top, j);
        assert(at == l.first_hash_table_address + p * 0x1000);
        let before = level1_statuses(img, g, top, k - 1)->Some_0;
        let now = before.push(level1_group(img, at));
        assert forall|x: int, i: int| 0 <= x < k && 0 <= i < 0xAA implies copy_offset(
            #[trigger] now[x][i],
        ) == 0 by {
            if x < k - 1 {
                assert(now[x][i] == before[x][i]);
            } else {
                assert(now[x][i] == img[at + i * 0x18 + 0x14]);
            }
        }
    }
}

/// A reader finds the tables of a written package.
proof fn lemma_tables<F: FileSource>(s: StfsWriteSession<F>, img: Seq<u8>) -> (t: Tables)
    requires
        is_ready(s),
        holds_blocks(s, img),
    ensures
        tables_of(img, written_geometry(s.layout)) == Ok::<
            Tables,
            StfsReadError,
        >(t),
        t.g == written_geometry(s.layout),
        first_copies(t),
        t.g.level == Level::One ==> t.top.len() == ceil_div(s.layout.total_blocks as int, 0xAA),
        t.g.level == Level::Two ==> t.level1.len() == ceil_div(
            s.layout.total_blocks as int,
            0x70E4,
        ),
{
    let l = s.layout;
    let g = written_geometry(l);
    let addr = l.first_hash_table_address as int;
    let p = match l.top_level {
        Level::Zero => 0,
        Level::One => level1_position(2, 0),
        Level::Two => level2_position(2),
    };
    assert(g.c() == 2);
    assert(g.root_offset() == 0);
    assert(g.top_address() == p * 0x1000 + addr);
    assert(g.top_entries() <= 0xAA);
    match l.top_level {
        Level::Zero => {
            level0_tables_stand_where_read(l, 0);
            lemma_block_lies_within(l, 0, 0);
        },
        Level::One => {
            level1_tables_stand_where_read(l, 0);
            lemma_upper_table(s, img, p, 0xAA);
        },
        Level::Two => {
            level2_table_stands_where_read(l);
            lemma_upper_table(s, img, p, 0x70E4);
        },
    }
    let top = top_statuses(img, g)->Some_0;
    if l.top_level != Level::Zero {
        assert forall|k: int| 0 <= k < top.len() implies copy_offset(#[trigger] top[k]) == 0 by {
            assert(top[k] == img[addr + p * 0x1000 + k * 0x18 + 0x14]);
        }
    }
    if l.top_level == Level::Two {
        lemma_level1_groups(s, img, top, top.len() as int);
        let level1 = level1_statuses(img, g, top, top.len() as int)->Some_0;
        let t = Tables { g, top, level1 };
        assert(first_copies(t));
        t
    } else {
        Tables { g, top, level1: Seq::empty() }
    }
}

/// A reader has found the tables of the package.
spec fn is_read<F: FileSource>(s: StfsWriteSession<F>, img: Seq<u8>, t: Tables) -> bool {
    &&& is_ready(s)
    &&& holds_blocks(s, img)
    &&& t.g == written_geometry(s.layout)
    &&& first_copies(t)
    &&& t.g.level == Level::One ==> t.top.len() == ceil_div(s.layout.total_blocks as int, 0xAA)
    &&& t.g.level == Level::Two ==> t.level1.len() == ceil_div(
        s.layout.total_blocks as int,
        0x70E4,
    )
}

/// The chain of a block goes on where the plan says.
proof fn lemma_next<F: FileSource>(s: StfsWriteSession<F>, img: Seq<u8>, t: Tables, b: int)
    requires
        is_read(s, img, t),
        0 <= b < s.layout.total_blocks,
    ensures
        t.next(img, b) == Ok::<int, StfsReadError>(s.layout.chain_next(b) as int),
{
    let l = s.layout;
    let p = level0_position(2, b);
    let at = l.first_hash_table_address + p * 0x1000;
    level0_tables_stand_where_read(l, b);
    lemma_block_lies_within(l, p, b - b % 0xAA);
    lemma_record_field(s, img, b);
    if l.top_level == Level::One {
        assert(b / 0xAA < t.top.len());
        assert(copy_offset(t.top[b / 0xAA]) == 0);
    }
    if l.top_level == Level::Two {
        assert(b / 0x70E4 < t.level1.len());
        assert(copy_offset(t.level1[b / 0x70E4][b % 0xAA]) == 0);
    }
    assert(t.record_address(b) == at + b % 0xAA * 0x18);
    let table = block_at(l, img, p);
    assert(field(img, t.record_address(b) + 0x15, 3) =~= field(table, b % 0xAA * 0x18 + 0x15, 3));
    lemma_pow256();
    lemma_be_round_trip(l.chain_next(b) as nat, 3);
}

/// A data block stands where a reader looks for it.
proof fn lemma_data<F: FileSource>(s: StfsWriteSession<F>, img: Seq<u8>, t: Tables, b: int)
    requires
        is_read(s, img, t),
        0 <= b < s.layout.total_blocks,
    ensures
        t.g.data_address(b) + 0x1000 <= img.len(),
        t.g.data_address(b) >= 0,
        field(img, t.g.data_address(b), 0x1000) == logical_block(
            s.layout,
            s.files.contents(),
            s.created_timestamp,
            b,
        ),
{
    let l = s.layout;
    let p = data_position(2, b);
    positions_are_bounded(2, b);
    if b > 0 {
        data_positions_increase(2, b - 1, b);
    }
    assert(l.on_course(p, b));
    lemma_block_lies_within(l, p, b);
    assert(block_at(l, img, p) == s.block_content(l.step_at(p, b)));
}

/// Data block `b` stands at its physical block.
pub proof fn lemma_written_at<F: FileSource>(s: StfsWriteSession<F>, img: Seq<u8>, b: int)
    requires
        is_ready(s),
        holds_blocks(s, img),
        0 <= b < s.layout.total_blocks,
    ensures
        ({
            let at = s.layout.first_hash_table_address + data_position(2, b) * 0x1000;
            &&& 0 <= at
            &&& at + 0x1000 <= img.len()
            &&& img.subrange(at, at + 0x1000) == logical_block(
                s.layout,
                s.files.contents(),
                s.created_timestamp,
                b,
            )
        }),
{
    let l = s.layout;
    let p = data_position(2, b);
    positions_are_bounded(2, b);
    if b > 0 {
        data_positions_increase(2, b - 1, b);
    }
    assert(l.on_course(p, b));
    lemma_block_lies_within(l, p, b);
    assert(block_at(l, img, p) == s.block_content(l.step_at(p, b)));
}

/// A block of a file belongs to no other.
pub proof fn lemma_owner(l: StfsLayout, i: int, b: int)
    requires
        l.wf(),
        0 <= i < l.entries@.len(),
        l.entries@[i].owns(b),
    ensures
        owner(l, b) == i,
        l.file_table_block_count <= b < l.total_blocks,
        l.ends_chain(b) <==> b + 1 == l.entries@[i].end_block(),
{
    let o = owner(l, b);
    assert(0 <= o < l.entries@.len() && l.entries@[o].owns(b));
    assert(l.entries@[i].end_block() <= l.total_blocks);
    if o < i {
        assert(l.entries@[o].end_block() <= l.entries@[i].starting_block_num);
    } else if i < o {
        assert(l.entries@[i].end_block() <= l.entries@[o].starting_block_num);
    }
    assert forall|j: int| 0 <= j < l.entries@.len() && (#[trigger] l.entries@[j]).owns(b) implies j
        == i by {
        if j < i {
            assert(l.entries@[j].end_block() <= l.entries@[i].starting_block_num);
        } else if i < j {
            assert(l.entries@[i].end_block() <= l.entries@[j].starting_block_num);
        }
    }
}

proof fn lemma_chain<F: FileSource>(
    s: StfsWriteSession<F>,
    img: Seq<u8>,
    t: Tables,
    i: int,
    b: int,
    steps: nat,
)
    requires
        is_read(s, img, t),
        0 <= i < s.layout.entries@.len(),
        s.layout.entries@[i].owns(b),
        s.layout.entries@[i].owns(b + steps),
    ensures
        t.chain_from(img, b, steps) == Ok::<int, StfsReadError>(b + steps),
    decreases steps,
{
    if steps > 0 {
        lemma_owner(s.layout, i, b);
        lemma_next(s, img, t, b);
        assert(s.layout.chain_next(b) == b + 1);
        assert(s.layout.entries@[i].owns(b + 1));
        lemma_chain(s, img, t, i, b + 1, (steps - 1) as nat);
    }
}

proof fn lemma_read<F: FileSource>(
    s: StfsWriteSession<F>,
    img: Seq<u8>,
    t: Tables,
    i: int,
    b: int,
    pos: int,
    n: int,
)
    requires
        is_read(s, img, t),
        0 <= i < s.layout.entries@.len(),
        s.layout.entries@[i].owns(b),
        0 <= pos < 0x1000,
        0 <= n,
        (b - s.layout.entries@[i].starting_block_num) * 0x1000 + pos + n
            <= s.layout.entries@[i].file_size,
    ensures
        ({
            let e = s.layout.entries@[i];
            let at = (b - e.starting_block_num) * 0x1000 + pos;
            t.read_from(img, b, pos, n) == Ok::<Seq<u8>, StfsReadError>(
                s.files.contents()[e.source_file_index->0 as int].subrange(at, at + n),
            )
        }),
    decreases n,
{
    let l = s.layout;
    let e = l.entries@[i];
    let at = (b - e.starting_block_num) * 0x1000 + pos;
    let contents = s.files.contents()[e.source_file_index->0 as int];
    assert(e.source_file_index is Some);
    assert(contents.len() == e.file_size);
    let m = if n < 0x1000 - pos {
        n
    } else {
        0x1000 - pos
    };
    lemma_owner(l, i, b);
    lemma_data(s, img, t, b);
    if n > 0 {
        let block = field(img, t.g.data_address(b), 0x1000);
        let piece = field(img, t.g.data_address(b) + pos, m);
        assert(piece =~= contents.subrange(at, at + m)) by {
            assert forall|j: int| 0 <= j < m implies piece[j] == contents[at + j] by {
                assert(piece[j] == block[pos + j]);
            }
        }
        if m < n {
            assert(e.owns(b + 1));
            lemma_chain(s, img, t, i, b, 1);
            lemma_read(s, img, t, i, b + 1, 0, n - m);
            assert(contents.subrange(at, at + n) =~= contents.subrange(at, at + m)
                + contents.subrange(at + m, at + n));
        }
    } else {
        assert(contents.subrange(at, at + n) =~= Seq::empty());
    }
}

/// Every range of a file reads back as that range of what was written.
proof fn lemma_file_range<F: FileSource>(
    s: StfsWriteSession<F>,
    img: Seq<u8>,
    t: Tables,
    i: int,
    offset: int,
    n: int,
)
    requires
        is_read(s, img, t),
        0 <= i < s.layout.entries@.len(),
        !s.layout.entries@[i].is_directory,
        0 <= offset,
        0 <= n,
        offset + n <= s.layout.entries@[i].file_size,
        n > 0 || offset == 0,
    ensures
        ({
            let e = s.layout.entries@[i];
            t.file_range(img, e.starting_block_num as int, offset, n) == Ok::<
                Seq<u8>,
                StfsReadError,
            >(s.files.contents()[e.source_file_index->0 as int].subrange(offset, offset + n))
        }),
{
    let e = s.layout.entries@[i];
    let start = e.starting_block_num as int;
    let k = offset / 0x1000;
    assert(e.owns(start));
    assert(e.owns(start + k));
    lemma_chain(s, img, t, i, start, k as nat);
    lemma_read(s, img, t, i, start + k, offset % 0x1000, n);
}

/// The listing reads back from block `t` on.
#[verifier::rlimit(40)]
proof fn lemma_listing<F: FileSource>(
    s: StfsWriteSession<F>,
    img: Seq<u8>,
    tables: Tables,
    t: int,
)
    requires
        is_read(s, img, tables),
        names_storable(s.layout),
        starts_fit(s.layout),
        0 <= t < s.layout.file_table_block_count,
    ensures
        tables.listing(img, t, (s.layout.file_table_block_count - t) as nat, t * 0x40) == Ok::<
            Seq<EntryModel>,
            StfsReadError,
        >(planned_models(s.layout, t * 0x40, s.layout.entries@.len() as int)),
    decreases s.layout.file_table_block_count - t,
{
    let l = s.layout;
    let n = l.entries@.len() as int;
    lemma_data(s, img, tables, t);
    lemma_block_entries(l, t, s.created_timestamp);
    lemma_next(s, img, tables, t);
    if t + 1 < l.file_table_block_count {
        assert(l.chain_next(t) == t + 1);
        lemma_listing(s, img, tables, t + 1);
        assert((t * 0x40 + 0x40) % 0x1_0000 == (t + 1) * 0x40);
        assert(planned_models(l, t * 0x40, n) =~= planned_models(l, t * 0x40, (t + 1) * 0x40)
            + planned_models(l, (t + 1) * 0x40, n));
    } else {
        assert(l.chain_next(t) == END_OF_CHAIN);
    }
}

/// The header of `img`, whose fixed fields are `m`, tells of this plan.
pub open spec fn header_says(l: StfsLayout, img: Seq<u8>, m: StfsMetadata) -> bool {
    let h = header_of(img);
    &&& metadata_reads(h, m)
    &&& header_prefix_of(h) is Ok
    &&& be_val(field(h, 0x3A9, 4)) == 0
    &&& m.header_size == l.header_size
    &&& m.volume_descriptor.block_separation == DEFAULT_BLOCK_SEPARATION
    &&& m.volume_descriptor.allocated_block_count == l.total_blocks
    &&& m.volume_descriptor.file_table_block_count == l.file_table_block_count
    &&& m.volume_descriptor.file_table_block_num == l.file_table_block_num
}

/// The files of a session with their paths and sizes.
pub open spec fn source_list<F: FileSource>(files: F) -> Seq<(Seq<char>, int)> {
    Seq::new(files.paths().len(), |i: int| (files.paths()[i], files.contents()[i].len() as int))
}

/// Every component of every path is one that a listing entry holds as it is, no path has more
/// than 4096 of them, and no path lies within another.
pub open spec fn paths_storable(list: Seq<(Seq<char>, int)>) -> bool {
    &&& paths_apart(list)
    &&& forall|f: int|
        0 <= f < list.len() ==> components((#[trigger] list[f]).0).len() <= 4096
    &&& forall|f: int, j: int|
        0 <= f < list.len() && 0 <= j < components(list[f].0).len() ==> storable(
            #[trigger] components(list[f].0)[j],
        )
}

/// The listed file `file` is file `f` of those that were written, with its path and its contents.
pub open spec fn reads_as(
    t: Tables,
    file: ListedFile,
    img: Seq<u8>,
    list: Seq<(Seq<char>, int)>,
    contents: Seq<Seq<u8>>,
    f: int,
) -> bool {
    &&& file.path == joined(components(list[f].0))
    &&& components(file.path) == components(list[f].0)
    &&& file.size == contents[f].len()
    &&& t.file_range(img, file.starting_block as int, 0, file.size as int) == Ok::<
        Seq<u8>,
        StfsReadError,
    >(contents[f])
    &&& forall|offset: int, n: int|
        0 <= offset && 0 < n && offset + n <= contents[f].len() ==> #[trigger] t.file_range(
            img,
            file.starting_block as int,
            offset,
            n,
        ) == Ok::<Seq<u8>, StfsReadError>(contents[f].subrange(offset, offset + n))
}

proof fn lemma_node_names(nodes: Seq<NodeModel>, list: Seq<(Seq<char>, int)>, k: int)
    requires
        lists_files(nodes, list, list.len() as int),
        paths_storable(list),
        0 <= k < nodes.len(),
    ensures
        storable(nodes[k].name),
        node_path(nodes, k).len() <= 4096,
        forall|j: int|
            0 <= j < node_path(nodes, k).len() ==> storable(#[trigger] node_path(nodes, k)[j]),
{
    let path = node_path(nodes, k);
    let f = if nodes[k].is_directory {
        choose|f: int|
            0 <= f < list.len() && leads_to(path, components((#[trigger] list[f]).0))
    } else {
        nodes[k].source->Some_0
    };
    let whole = components(list[f].0);
    assert forall|j: int| 0 <= j < path.len() implies storable(#[trigger] path[j]) by {
        assert(path[j] == whole[j]);
        assert(storable(components(list[f].0)[j]));
    }
    assert(path.last() == nodes[k].name);
    assert(path.last() == path[path.len() - 1]);
}

proof fn lemma_path_splits(path: Seq<Seq<char>>)
    requires
        forall|j: int| 0 <= j < path.len() ==> storable(#[trigger] path[j]),
    ensures
        components(joined(path)) == path,
{
    assert forall|j: int| 0 <= j < path.len() implies is_component(#[trigger] path[j]) by {
        let name = path[j];
        assert(storable(name));
        if name.contains('/') {
            let x = choose|x: int| 0 <= x < name.len() && name[x] == '/';
            assert(is_separator(name[x]));
        }
    }
    joined_splits(path);
}

/// A package reads back as the files it was written from: it opens, the files are listed in the
/// order they were given in, each with its path and its contents, there is no other, and no path
/// is listed twice.
pub proof fn package_reads_back<F: FileSource>(
    s: StfsWriteSession<F>,
    img: Seq<u8>,
    m: StfsMetadata,
    has_installer: bool,
)
    requires
        s.wf(),
        s.hashing_done,
        tree_of(source_list(s.files)) is Ok,
        s.layout.is_plan_of(
            tree_of(source_list(s.files))->Ok_0,
            DEFAULT_BLOCK_SEPARATION,
            has_installer,
        ),
        s.files.paths().len() == s.files.contents().len(),
        holds_blocks(s, img),
        header_says(s.layout, img, m),
        paths_storable(source_list(s.files)),
    ensures
        package_of(img, m) is Ok,
        package_of(img, m) matches Ok((t, files)) ==> {
            let list = source_list(s.files);
            let contents = s.files.contents();
            &&& files.len() == list.len()
            &&& forall|k: int|
                0 <= k < files.len() ==> reads_as(
                    t,
                    #[trigger] files[k],
                    img,
                    list,
                    contents,
                    k,
                )
            &&& forall|a: int, b: int|
                0 <= a < b < files.len() ==> (#[trigger] files[a]).path != (
                #[trigger] files[b]).path
        },
{
    let l = s.layout;
    let list = source_list(s.files);
    let contents = s.files.contents();
    let nodes = tree_of(list)->Ok_0;
    let n = nodes.len() as int;
    planned_listing_holds_the_files(list);
    lemma_parents(nodes, list);
    assert forall|k: int| 0 <= k < n implies storable((#[trigger] l.entries@[k]).name@) by {
        assert(is_entry_of(l.entries@[k], nodes, table_blocks(n), k));
        lemma_node_names(nodes, list, k);
    }
    assert forall|k: int| 0 <= k < n implies (#[trigger] node_path(nodes, k)).len() <= 4096 by {
        lemma_node_names(nodes, list, k);
    }
    assert(is_planned(l, nodes));
    assert(starts_fit(l)) by {
        assert forall|k: int|
            0 <= k < l.entries@.len() && (
            #[trigger] l.entries@[k]).is_directory implies l.entries@[k].starting_block_num == 0 by {
            assert(is_entry_of(l.entries@[k], nodes, table_blocks(n), k));
        }
    }
    assert(l.total_blocks > 0);
    assert(is_ready(s));
    let t = lemma_tables(s, img);
    assert(is_read(s, img, t));
    lemma_listing(s, img, t, 0);
    lemma_listed_files(l, nodes, n);
    let files = planned_files(l, nodes, n);
    assert(img.len() > 0x411);
    assert(geometry_of(img, m) == Ok::<Geometry, StfsReadError>(written_geometry(l)));
    assert(package_of(img, m) == Ok::<(Tables, Seq<ListedFile>), StfsReadError>((t, files)));
    planned_files_keep_their_order(l, list, nodes);
    assert forall|k: int| 0 <= k < files.len() implies reads_as(
        t,
        #[trigger] files[k],
        img,
        list,
        contents,
        k,
    ) by {
        assert(is_listed_as(l, nodes, k, k));
        let j = choose|j: int|
            0 <= j < nodes.len() && nodes[j].source == Some(k) && !nodes[j].is_directory
                && files[k] == #[trigger] planned_file(l, nodes, j);
        let e = l.entries@[j];
        assert(is_entry_of(e, nodes, table_blocks(n), j));
        lemma_node_names(nodes, list, j);
        lemma_path_splits(node_path(nodes, j));
        lemma_file_range(s, img, t, j, 0, e.file_size as int);
        assert(contents[k].subrange(0, contents[k].len() as int) =~= contents[k]);
        assert forall|offset: int, n: int|
            0 <= offset && 0 < n && offset + n <= contents[k].len() implies #[trigger] t.file_range(
            img,
            files[k].starting_block as int,
            offset,
            n,
        ) == Ok::<Seq<u8>, StfsReadError>(contents[k].subrange(offset, offset + n)) by {
            lemma_file_range(s, img, t, j, offset, n);
        }
    }
    assert forall|a: int, b: int| 0 <= a < b < files.len() implies (#[trigger] files[a]).path != (
    #[trigger] files[b]).path by {
        let i = lemma_listed_where(l, nodes, a, n);
        let j = lemma_listed_where(l, nodes, b, n);
        assert(i != j);
        lemma_node_names(nodes, list, i);
        lemma_node_names(nodes, list, j);
        lemma_path_splits(node_path(nodes, i));
        lemma_path_splits(node_path(nodes, j));
        if i < j {
            planned_paths_differ(list, i, j);
        } else {
            planned_paths_differ(list, j, i);
        }
    }
}

/// `w` is what the session has written: the header and the physical blocks before its position.
pub open spec fn so_far<F: FileSource>(s: StfsWriteSession<F>, w: Seq<u8>) -> bool {
    &&& w.len() == s.emitted()
    &&& s.phase != WritePhase::Header ==> s.is_header(
        w.take(s.layout.first_hash_table_address as int),
    )
    &&& s.phase != WritePhase::Header ==> forall|p: int, b: int|
        0 <= b < s.layout.total_blocks && p < s.physical_cursor && #[trigger] s.layout.on_course(
            p,
            b,
        ) ==> block_at(s.layout, w, p) == s.block_content(s.layout.step_at(p, b))
}

/// The data block that comes next at a position is the only one.
proof fn lemma_course(l: StfsLayout, p: int, a: int, b: int)
    requires
        l.wf(),
        l.on_course(p, a),
        l.on_course(p, b),
    ensures
        a == b,
{
    if a < b - 1 {
        data_positions_increase(l.map.c(), a, b - 1);
    } else if b < a - 1 {
        data_positions_increase(l.map.c(), b, a - 1);
    }
}

/// The chunks of a session, end to end, are the package so far.
pub proof fn chunks_make_up_the_package<F: FileSource>(
    s: StfsWriteSession<F>,
    z: StfsWriteSession<F>,
    w: Seq<u8>,
    max_bytes: usize,
    chunk: Vec<u8>,
)
    requires
        s.wf(),
        s.hashing_done,
        so_far(s, w),
        chunk_step(
            s,
            z,
            max_bytes,
            Ok::<Option<Vec<u8>>, StfsWriteError>(Some(chunk)),
        ),
    ensures
        so_far(z, w + chunk@),
{
    let l = s.layout;
    let c = chunk@;
    let all = w + c;
    let addr = l.first_hash_table_address as int;
    if s.phase == WritePhase::Header {
        assert(w =~= Seq::empty());
        assert(all.take(addr) =~= c);
        assert forall|p: int, b: int|
            0 <= b < l.total_blocks && p < z.physical_cursor && #[trigger] l.on_course(
                p,
                b,
            ) implies block_at(l, all, p) == z.block_content(l.step_at(p, b)) by {
        }
    } else {
        assert(all.take(addr) =~= w.take(addr));
        assert forall|p: int, b: int|
            0 <= b < l.total_blocks && p < z.physical_cursor && #[trigger] l.on_course(
                p,
                b,
            ) implies block_at(l, all, p) == z.block_content(l.step_at(p, b)) by {
            if p < s.physical_cursor {
                assert(block_at(l, all, p) =~= block_at(l, w, p));
            } else {
                lemma_course(l, p, b, s.block_num as int);
                assert(block_at(l, all, p) =~= c);
            }
        }
    }
    assert(z.is_header(all.take(addr))) by {
        let h = all.take(addr);
        assert(s.is_header(h));
        let m = choose|m: StfsMetadata|
            #[trigger] is_header_metadata(
                m,
                s.layout,
                s.content_type,
                s.title_id,
                s.execution_info,
                s.identity(),
                s.top_hash(),
            ) && h == written_header(s, m);
        assert(is_header_metadata(
            m,
            z.layout,
            z.content_type,
            z.title_id,
            z.execution_info,
            z.identity(),
            z.top_hash(),
        ));
    }
}

/// The header that a session writes with these fixed fields.
spec fn written_header<F: FileSource>(s: StfsWriteSession<F>, m: StfsMetadata) -> Seq<u8> {
    let h = header_image(
        s.layout.first_hash_table_address as nat,
        m,
        opt_text(s.display_name),
        s.avatar_item_metadata,
        s.video_metadata,
        s.installer_metadata,
    );
    if s.signed {
        overwrite(h, 0x23C, s.license_entries@)
    } else {
        h
    }
}

/// Once a session is done, what it has written is the whole package.
pub proof fn finished_package<F: FileSource>(s: StfsWriteSession<F>, w: Seq<u8>)
    requires
        s.wf(),
        s.phase == WritePhase::Done,
        so_far(s, w),
    ensures
        holds_blocks(s, w),
        s.is_header(w.take(s.layout.first_hash_table_address as int)),
{
    let l = s.layout;
    assert forall|p: int, b: int| 0 <= b < l.total_blocks && #[trigger] l.on_course(p, b) implies block_at(
        l,
        w,
        p,
    ) == s.block_content(l.step_at(p, b)) by {
        lemma_block_lies_within(l, p, b);
    }
}

/// The fixed fields depend on the first 0x411 bytes of a header alone.
proof fn lemma_same_fields(a: Seq<u8>, b: Seq<u8>, m: StfsMetadata)
    requires
        a.len() >= 0x411,
        b.len() >= 0x411,
        a.take(0x411) == b.take(0x411),
        metadata_reads(a, m),
    ensures
        metadata_reads(b, m),
        header_prefix_of(a) == header_prefix_of(b),
        field(a, 0x3A9, 4) == field(b, 0x3A9, 4),
{
    assert forall|x: int, n: int| 0 <= x && 0 <= n && x + n <= 0x411 implies #[trigger] field(
        b,
        x,
        n,
    ) == field(a, x, n) by {
        assert(field(b, x, n) =~= field(b.take(0x411), x, n));
        assert(field(a, x, n) =~= field(a.take(0x411), x, n));
    }
}

/// The header that a session writes tells of the package it writes.
pub proof fn written_header_says<F: FileSource>(
    s: StfsWriteSession<F>,
    img: Seq<u8>,
    m: StfsMetadata,
)
    requires
        s.wf(),
        img.len() >= s.layout.first_hash_table_address,
        s.is_header(img.take(s.layout.first_hash_table_address as int)),
        metadata_reads(header_of(img), m),
    ensures
        header_says(s.layout, img, m),
{
    let l = s.layout;
    let addr = l.first_hash_table_address as int;
    let h = img.take(addr);
    let w = choose|w: StfsMetadata|
        #[trigger] is_header_metadata(
            w,
            s.layout,
            s.content_type,
            s.title_id,
            s.execution_info,
            s.identity(),
            s.top_hash(),
        ) && h == written_header(s, w);
    let plain = header_image(
        addr as nat,
        w,
        opt_text(s.display_name),
        s.avatar_item_metadata,
        s.video_metadata,
        s.installer_metadata,
    );
    assert(addr >= 0xA000);
    assert(header_of(img).take(0x411) =~= h.take(0x411));
    lemma_same_fields(header_of(img), h, m);
    header_reads_back(
        addr as nat,
        w,
        opt_text(s.display_name),
        s.avatar_item_metadata,
        s.video_metadata,
        s.installer_metadata,
    );
    if s.signed {
        assert forall|x: int, n: int|
            0 <= n && ((0 <= x && x + n <= 0x23C) || (0x32C <= x && x + n <= 0x411)) implies #[trigger] field(
            h,
            x,
            n,
        ) == field(plain, x, n) by {
            assert(field(h, x, n) =~= field(plain, x, n));
        }
        let p = StfsMetadata { license_entries_1_15: w.license_entries_1_15, ..m };
        assert(field(plain, 0x23C, 0xF0) == w.license_entries_1_15@) by {
            lemma_plain_license(
                addr as nat,
                w,
                opt_text(s.display_name),
                s.avatar_item_metadata,
                s.video_metadata,
                s.installer_metadata,
            );
        }
        assert(metadata_reads(plain, p));
        assert(p == w);
    }
}

/// What the header of a written package says, byte by byte: who made it of what, where its listing
/// is, how many blocks it has, and the digest of the table on top, which an unsigned one leaves
/// zero. A signed one carries its license entries.
pub proof fn header_of_a_package_says<F: FileSource>(s: StfsWriteSession<F>, img: Seq<u8>)
    requires
        s.wf(),
        img.len() >= s.layout.first_hash_table_address,
        s.is_header(img.take(s.layout.first_hash_table_address as int)),
    ensures
        img.subrange(0, 4) == seq![0x43u8, 0x4F, 0x4E, 0x20],
        s.signed ==> img.subrange(0x23C, 0x32C) == s.license_entries@,
        img.subrange(0x340, 0x344) == be_bytes(s.layout.header_size as nat, 4),
        img.subrange(0x344, 0x348) == be_bytes(s.content_type as nat, 4),
        img.subrange(0x360, 0x364) == be_bytes(s.title_id as nat, 4),
        s.execution_info matches Some(i) ==> {
            &&& img.subrange(0x354, 0x358) == be_bytes(i.media_id as nat, 4)
            &&& img.subrange(0x364, 0x365) == be_bytes(i.platform as nat, 1)
            &&& img.subrange(0x365, 0x366) == be_bytes(i.executable_type as nat, 1)
            &&& img.subrange(0x366, 0x367) == be_bytes(i.disc_number as nat, 1)
            &&& img.subrange(0x367, 0x368) == be_bytes(i.disc_count as nat, 1)
            &&& img.subrange(0x368, 0x36C) == be_bytes(i.save_game_id as nat, 4)
        },
        img.subrange(0x36C, 0x371) == s.console_id@,
        img.subrange(0x371, 0x379) == s.profile_id@,
        img.subrange(0x379, 0x37A) == be_bytes(0x24, 1),
        img.subrange(0x37B, 0x37C) == be_bytes(0, 1),
        img.subrange(0x37C, 0x37E) == le_bytes(s.layout.file_table_block_count as nat, 2),
        img.subrange(0x37E, 0x381) == le_bytes(0, 3),
        img.subrange(0x381, 0x395) == s.top_hash(),
        img.subrange(0x395, 0x399) == be_bytes(s.layout.total_blocks as nat, 4),
        img.subrange(0x3A9, 0x3AD) == be_bytes(0, 4),
        img.subrange(0x3AD, 0x3B5) == s.online_creator@,
        img.subrange(0x3FD, 0x411) == s.device_id@,
{
    let addr = s.layout.first_hash_table_address as int;
    let h = img.take(addr);
    let w = choose|w: StfsMetadata|
        #[trigger] is_header_metadata(
            w,
            s.layout,
            s.content_type,
            s.title_id,
            s.execution_info,
            s.identity(),
            s.top_hash(),
        ) && h == written_header(s, w);
    let plain = header_image(
        addr as nat,
        w,
        opt_text(s.display_name),
        s.avatar_item_metadata,
        s.video_metadata,
        s.installer_metadata,
    );
    assert(addr >= 0xA000);
    header_fields_stand_in_place(
        addr as nat,
        w,
        opt_text(s.display_name),
        s.avatar_item_metadata,
        s.video_metadata,
        s.installer_metadata,
    );
    assert forall|x: int, y: int|
        0 <= x <= y && (y <= 0x23C || (0x32C <= x && y <= 0x411)) implies #[trigger] img.subrange(
        x,
        y,
    ) == plain.subrange(x, y) by {
        assert forall|i: int| x <= i < y implies img[i] == plain[i] by {
            assert(h[i] == img[i]);
        }
        assert(img.subrange(x, y) =~= plain.subrange(x, y));
    }
    if s.signed {
        assert(h == overwrite(plain, 0x23C, s.license_entries@));
        assert(img.subrange(0x23C, 0x32C) =~= s.license_entries@) by {
            assert forall|i: int| 0x23C <= i < 0x32C implies img[i] == s.license_entries@[i
                - 0x23C] by {
                assert(h[i] == img[i]);
            }
        }
    }
}

/// Session `a` hands out the piece `chunk` and becomes `b`.
pub open spec fn hands_out<F: FileSource>(
    a: StfsWriteSession<F>,
    b: StfsWriteSession<F>,
    max_bytes: usize,
    chunk: Vec<u8>,
) -> bool {
    chunk_step(a, b, max_bytes, Ok::<Option<Vec<u8>>, StfsWriteError>(Some(chunk)))
}

/// A session goes through `states` and hands out `chunks`, one between each two of them.
pub open spec fn is_run<F: FileSource>(
    states: Seq<StfsWriteSession<F>>,
    sizes: Seq<usize>,
    chunks: Seq<Vec<u8>>,
) -> bool {
    &&& states.len() == chunks.len() + 1
    &&& sizes.len() == chunks.len()
    &&& forall|i: int|
        0 <= i < chunks.len() ==> #[trigger] hands_out(
            states[i],
            states[i + 1],
            sizes[i],
            chunks[i],
        )
}

proof fn lemma_run<F: FileSource>(
    states: Seq<StfsWriteSession<F>>,
    sizes: Seq<usize>,
    chunks: Seq<Vec<u8>>,
    k: int,
)
    requires
        is_run(states, sizes, chunks),
        states[0].wf(),
        states[0].hashing_done,
        states[0].phase == WritePhase::Header,
        0 <= k <= chunks.len(),
    ensures
        states[k].wf(),
        states[k].hashing_done,
        states[k].same_package(&states[0]),
        so_far(states[k], end_to_end(chunks.take(k))),
    decreases k,
{
    if k > 0 {
        lemma_run(states, sizes, chunks, k - 1);
        let i = k - 1;
        assert(hands_out(states[i], states[i + 1], sizes[i], chunks[i]));
        chunks_make_up_the_package(
            states[i],
            states[i + 1],
            end_to_end(chunks.take(i)),
            sizes[i],
            chunks[i],
        );
        assert(chunks.take(k).drop_last() =~= chunks.take(i));
        assert(chunks.take(k).last() == chunks[i]);
    }
}

/// The package is planned for the session's own files.
pub open spec fn plans_its_files<F: FileSource>(
    s: StfsWriteSession<F>,
    has_installer: bool,
) -> bool {
    &&& s.files.paths().len() == s.files.contents().len()
    &&& tree_of(source_list(s.files)) matches Ok(nodes) && s.layout.is_plan_of(
        nodes,
        DEFAULT_BLOCK_SEPARATION,
        has_installer,
    )
}

/// `rd` is a reader of the package `img`.
pub open spec fn is_reader_of<S: ByteSource>(rd: StfsReader<S>, img: Seq<u8>) -> bool {
    &&& rd.wf()
    &&& rd.source.bytes() == img
    &&& rd.header_matches()
    &&& package_of(img, rd.metadata) == Ok::<(Tables, Seq<ListedFile>), StfsReadError>(
        (rd.tables(), file_models(rd.files@)),
    )
}

/// What a session hands out from beginning to end is what it has written at its end.
pub proof fn lemma_whole_run<F: FileSource>(
    states: Seq<StfsWriteSession<F>>,
    sizes: Seq<usize>,
    chunks: Seq<Vec<u8>>,
    end: StfsWriteSession<F>,
    last_size: usize,
)
    requires
        states[0].wf(),
        states[0].hashing_done,
        states[0].phase == WritePhase::Header,
        is_run(states, sizes, chunks),
        chunk_step(
            states.last(),
            end,
            last_size,
            Ok::<Option<Vec<u8>>, StfsWriteError>(None),
        ),
    ensures
        end.wf(),
        end.hashing_done,
        end.phase == WritePhase::Done,
        end.same_package(&states[0]),
        so_far(end, end_to_end(chunks)),
{
    let n = chunks.len() as int;
    let first = states[0];
    let last = states.last();
    let img = end_to_end(chunks);
    lemma_run(states, sizes, chunks, n);
    assert(chunks.take(n) =~= chunks);
    assert(last == states[n]);
    assert(source_list(end.files) =~= source_list(first.files));
    assert(so_far(last, img));
    let addr = last.layout.first_hash_table_address as int;
    assert(end.is_header(img.take(addr))) by {
        let h = img.take(addr);
        let w = choose|w: StfsMetadata|
            #[trigger] is_header_metadata(
                w,
                last.layout,
                last.content_type,
                last.title_id,
                last.execution_info,
                last.identity(),
                last.top_hash(),
            ) && h == written_header(last, w);
        assert(is_header_metadata(
            w,
            end.layout,
            end.content_type,
            end.title_id,
            end.execution_info,
            end.identity(),
            end.top_hash(),
        ));
    }
    assert(so_far(end, img)) by {
        assert forall|p: int, b: int|
            0 <= b < end.layout.total_blocks && p < end.physical_cursor
                && #[trigger] end.layout.on_course(p, b) implies block_at(end.layout, img, p)
            == end.block_content(end.layout.step_at(p, b)) by {
            assert(last.layout.on_course(p, b));
        }
    }
}

/// What a session hands out from beginning to end is a package that opens, whatever sizes were
/// asked for.
pub proof fn whole_run_opens<F: FileSource>(
    states: Seq<StfsWriteSession<F>>,
    sizes: Seq<usize>,
    chunks: Seq<Vec<u8>>,
    end: StfsWriteSession<F>,
    last_size: usize,
    has_installer: bool,
    m: StfsMetadata,
)
    requires
        states[0].wf(),
        states[0].hashing_done,
        states[0].phase == WritePhase::Header,
        plans_its_files(states[0], has_installer),
        paths_storable(source_list(states[0].files)),
        is_run(states, sizes, chunks),
        chunk_step(
            states.last(),
            end,
            last_size,
            Ok::<Option<Vec<u8>>, StfsWriteError>(None),
        ),
        metadata_reads(header_of(end_to_end(chunks)), m),
    ensures
        end.phase == WritePhase::Done,
        end_to_end(chunks).len() == end.package_size(),
        package_of(end_to_end(chunks), m) is Ok,
        package_of(end_to_end(chunks), m) matches Ok((t, files)) ==> {
            let list = source_list(states[0].files);
            &&& files.len() == list.len()
            &&& forall|k: int|
                0 <= k < files.len() ==> reads_as(
                    t,
                    #[trigger] files[k],
                    end_to_end(chunks),
                    list,
                    states[0].files.contents(),
                    k,
                )
        },
{
    let first = states[0];
    let img = end_to_end(chunks);
    lemma_whole_run(states, sizes, chunks, end, last_size);
    assert(source_list(end.files) =~= source_list(first.files));
    finished_package(end, img);
    written_header_says(end, img, m);
    package_reads_back(end, img, m, has_installer);
}

/// What a session hands out from beginning to end reads back as the files it was opened with: a
/// reader opened over it lists them in the same order, with their paths and sizes, and gives any
/// range of their contents.
pub proof fn whole_run_reads_back<F: FileSource, S: ByteSource>(
    states: Seq<StfsWriteSession<F>>,
    sizes: Seq<usize>,
    chunks: Seq<Vec<u8>>,
    end: StfsWriteSession<F>,
    last_size: usize,
    has_installer: bool,
    rd: StfsReader<S>,
)
    requires
        states[0].wf(),
        states[0].hashing_done,
        states[0].phase == WritePhase::Header,
        plans_its_files(states[0], has_installer),
        paths_storable(source_list(states[0].files)),
        is_run(states, sizes, chunks),
        chunk_step(
            states.last(),
            end,
            last_size,
            Ok::<Option<Vec<u8>>, StfsWriteError>(None),
        ),
        is_reader_of(rd, end_to_end(chunks)),
    ensures
        rd.paths().len() == states[0].files.paths().len(),
        forall|k: int|
            0 <= k < rd.paths().len() ==> #[trigger] rd.paths()[k] == joined(
                components(states[0].files.paths()[k]),
            ),
        rd.contents() == states[0].files.contents(),
        rd.source.reliable() ==> rd.reliable(),
        forall|k: int, offset: int, n: int|
            0 <= k < rd.paths().len() && 0 <= offset && 0 < n && offset + n
                <= states[0].files.contents()[k].len() ==> #[trigger] rd.file_bytes(k, offset, n)
                == Ok::<Seq<u8>, StfsReadError>(
                states[0].files.contents()[k].subrange(offset, offset + n),
            ),
{
    let img = end_to_end(chunks);
    let contents = states[0].files.contents();
    let list = source_list(states[0].files);
    whole_run_opens(states, sizes, chunks, end, last_size, has_installer, rd.metadata);
    let files = file_models(rd.files@);
    let t = rd.tables();
    assert forall|k: int| 0 <= k < rd.paths().len() implies #[trigger] rd.paths()[k] == joined(
        components(states[0].files.paths()[k]),
    ) by {
        assert(reads_as(t, files[k], img, list, contents, k));
    }
    assert(rd.contents() =~= contents) by {
        assert forall|k: int| 0 <= k < contents.len() implies rd.contents()[k] == contents[k] by {
            assert(reads_as(t, files[k], img, list, contents, k));
            let start = files[k].starting_block as int;
            assert forall|j: int| 0 <= j < contents[k].len() implies rd.file_byte(start, j)
                == contents[k][j] by {
                assert(t.file_range(img, start, j, 1) == Ok::<Seq<u8>, StfsReadError>(
                    contents[k].subrange(j, j + 1),
                ));
            }
            assert(rd.contents()[k] =~= contents[k]);
        }
    }
    assert forall|k: int| 0 <= k < rd.files@.len() implies t.file_range(
        img,
        (#[trigger] rd.files@[k]).1 as int,
        0,
        rd.files@[k].2 as int,
    ) is Ok by {
        assert(reads_as(t, files[k], img, list, contents, k));
    }
    assert forall|k: int, offset: int, n: int|
        0 <= k < rd.paths().len() && 0 <= offset && 0 < n && offset + n
            <= contents[k].len() implies #[trigger] rd.file_bytes(k, offset, n) == Ok::<
        Seq<u8>,
        StfsReadError,
    >(contents[k].subrange(offset, offset + n)) by {
        assert(reads_as(t, files[k], img, list, contents, k));
    }
}

} // verus!
