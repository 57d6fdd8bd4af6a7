//! Where the blocks and tables of a package stand in it, and how a reader follows them.
use crate::bytes::{be_val, field};
use crate::source::ByteSource;
use crate::stfs::format::StfsMetadata;
use crate::stfs::layout::{copies, data_position, level0_position, level1_position, level2_position};
use crate::stfs::listing::{ListedFile, StfsReadError};
use crate::stfs::read::{
    geometry_of, level1_address, level1_group, level1_statuses, package_of, Geometry, StfsReader,
    Tables,
};
use vstd::prelude::*;

verus! {

/// Where data block `b` stands in a package whose first table is at `first` and that has room for
/// `c` copies of each table: behind a level-0 table for every 0xAA blocks up to its own, and,
/// once there are more than that, behind the level-1 tables and the level-2 table.
pub open spec fn data_place(first: int, c: int, b: int) -> int {
    first + 0x1000 * (b + c * (b / 0xAA) + c + (if b < 0xAA {
        0
    } else if b < 0x70E4 {
        c
    } else {
        c * (b / 0x70E4) + 2 * c
    }))
}

/// Where the first copy of the level-0 table number `t` stands: right before its first block.
pub open spec fn level0_place(first: int, c: int, t: int) -> int {
    data_place(first, c, t * 0xAA) - c * 0x1000
}

/// Where the first copy of the level-1 table number `j` stands: behind the first level-0 group,
/// or right before the first level-0 table of its own.
pub open spec fn level1_place(first: int, c: int, j: int) -> int {
    if j == 0 {
        first + (0xAA + c) * 0x1000
    } else {
        level0_place(first, c, j * 0xAA) - c * 0x1000
    }
}

/// Where the first copy of the level-2 table stands: right before the second level-1 table.
pub open spec fn level2_place(first: int, c: int) -> int {
    level1_place(first, c, 1) - c * 0x1000
}

/// Blocks and tables stand without gaps: a group of 0xAA blocks stands in one piece; before the
/// next one there is room for the copies of its level-0 table, and before the second group, and
/// before every 0x70E4 blocks from then on, for those of a level-1 table as well. The level-2
/// table has its room before the second of these.
pub proof fn blocks_stand_without_gaps(first: int, c: int, b: int)
    requires
        c == 1 || c == 2,
        0 <= b,
    ensures
        data_place(first, c, 0) == first + c * 0x1000,
        data_place(first, c, b + 1) == data_place(first, c, b) + 0x1000 * (1 + (if (b + 1) % 0xAA
            == 0 {
            c
        } else {
            0
        }) + (if b + 1 == 0xAA || (b + 1) % 0x70E4 == 0 {
            c
        } else {
            0
        }) + (if b + 1 == 0x70E4 {
            c
        } else {
            0
        })),
{
    lemma_next_groups(b);
}

proof fn lemma_next_groups(b: int)
    requires
        0 <= b,
    ensures
        (b + 1) / 0xAA == b / 0xAA + (if (b + 1) % 0xAA == 0 {
            1int
        } else {
            0
        }),
        (b + 1) / 0x70E4 == b / 0x70E4 + (if (b + 1) % 0x70E4 == 0 {
            1int
        } else {
            0
        }),
{
}

/// The physical block numbers of the address math lead to these places.
pub proof fn positions_are_places(first: int, c: int, b: int)
    requires
        c == 1 || c == 2,
        0 <= b,
    ensures
        data_place(first, c, b) == first + data_position(c, b) * 0x1000,
        level0_place(first, c, b / 0xAA) == first + level0_position(c, b) * 0x1000,
{
    let t = b / 0xAA;
    let g = t * 0xAA;
    assert(g / 0xAA == t);
    assert(g / 0x70E4 == b / 0x70E4);
    if c == 1 {
        assert(data_place(first, 1, b) == first + data_position(1, b) * 0x1000);
        assert(level0_place(first, 1, t) == first + level0_position(1, b) * 0x1000);
    } else {
        assert(data_place(first, 2, b) == first + data_position(2, b) * 0x1000);
        assert(level0_place(first, 2, t) == first + level0_position(2, b) * 0x1000);
    }
}

/// The same of the tables of the upper levels.
pub proof fn table_positions_are_places(first: int, c: int, j: int)
    requires
        c == 1 || c == 2,
        0 <= j,
    ensures
        level0_place(first, c, j) == first + level0_position(c, j * 0xAA) * 0x1000,
        level1_place(first, c, j) == first + level1_position(c, j * 0x70E4) * 0x1000,
        level2_place(first, c) == first + level2_position(c) * 0x1000,
{
    let b = j * 0x70E4;
    assert(j * 0xAA / 0xAA == j);
    positions_are_places(first, c, j * 0xAA);
    assert(j * 0xAA * 0xAA == b);
    assert(b / 0x70E4 == j);
    assert(b / 0xAA == j * 0xAA);
    if c == 1 {
        if j > 0 {
            assert(b >= 0x70E4);
            assert(data_place(first, 1, b) == first + 0x1000 * (b + j * 0xAA + 1 + j + 2));
            assert(level0_place(first, 1, j * 0xAA) == data_place(first, 1, b) - 0x1000);
            assert(level1_position(1, b) == 1 + j * 0x718F);
        }
        assert(data_place(first, 1, 0x70E4) == first + 0x1000 * (0x70E4 + 0xAA + 1 + 3));
        assert(level0_place(first, 1, 0xAA) == data_place(first, 1, 0x70E4) - 0x1000);
    } else {
        if j > 0 {
            assert(b >= 0x70E4);
            assert(data_place(first, 2, b) == first + 0x1000 * (b + 2 * (j * 0xAA) + 2 + 2 * j
                + 4));
            assert(level0_place(first, 2, j * 0xAA) == data_place(first, 2, b) - 0x2000);
            assert(level1_position(2, b) == 2 + j * 0x723A);
        }
        assert(data_place(first, 2, 0x70E4) == first + 0x1000 * (0x70E4 + 2 * 0xAA + 2 + 6));
        assert(level0_place(first, 2, 0xAA) == data_place(first, 2, 0x70E4) - 0x2000);
    }
}

/// How many copies of each table a package has room for: two if the low bit of its block
/// separation is clear.
pub open spec fn copies_kept(separation: u8) -> int {
    if separation % 2 == 0 {
        2
    } else {
        1
    }
}

/// How far the second copy of a table is from the first, if this bit says that it is the one in
/// use.
pub open spec fn second_copy(bit: int) -> int {
    if bit % 2 == 1 {
        0x1000
    } else {
        0
    }
}

/// Where the table on top of a package of `n` blocks stands: in its second copy if bit 1 of the
/// block separation is set.
pub open spec fn top_in_use(first: int, separation: u8, n: int) -> int {
    let c = copies_kept(separation);
    (if n <= 0xAA {
        level0_place(first, c, 0)
    } else if n <= 0x70E4 {
        level1_place(first, c, 0)
    } else {
        level2_place(first, c)
    }) + second_copy(separation as int / 2)
}

/// Where the level-1 table number `j` of a package that a level-2 table tops stands: in its second
/// copy if bit 6 of the status byte of its record in the top table is set.
pub open spec fn level1_in_use(bytes: Seq<u8>, first: int, separation: u8, n: int, j: int) -> int {
    let status = bytes[top_in_use(first, separation, n) + j * 0x18 + 0x14];
    level1_place(first, copies_kept(separation), j) + second_copy(status as int / 0x40)
}

/// Where the level-0 table of block `b` stands: in its second copy if bit 6 of the status byte of
/// its record is set, or bit 1 of the block separation if there is no table above it.
pub open spec fn level0_in_use(bytes: Seq<u8>, first: int, separation: u8, n: int, b: int) -> int {
    let place = level0_place(first, copies_kept(separation), b / 0xAA);
    if n <= 0xAA {
        place + second_copy(separation as int / 2)
    } else if n <= 0x70E4 {
        let status = bytes[top_in_use(first, separation, n) + b / 0xAA * 0x18 + 0x14];
        place + second_copy(status as int / 0x40)
    } else {
        let table = level1_in_use(bytes, first, separation, n, b / 0x70E4);
        place + second_copy(bytes[table + b % 0xAA * 0x18 + 0x14] as int / 0x40)
    }
}

proof fn lemma_group(bytes: Seq<u8>, g: Geometry, top: Seq<u8>, n: int, k: int)
    requires
        0 <= k < n,
        level1_statuses(bytes, g, top, n) is Some,
    ensures
        level1_statuses(bytes, g, top, n)->Some_0.len() == n,
        level1_statuses(bytes, g, top, n)->Some_0[k] == level1_group(
            bytes,
            level1_address(g, top, k),
        ),
    decreases n,
{
    if n > 1 && k < n - 1 {
        lemma_group(bytes, g, top, n - 1, k);
    } else if n > 1 {
        lemma_group(bytes, g, top, n - 1, 0);
    }
}

/// A reader takes the hash record of a block from the copies of the tables that are in use, and
/// the block itself from its place. The record's last three bytes name the block that follows in
/// its chain, high byte first.
pub proof fn links_are_read_from_the_tables_in_use(
    bytes: Seq<u8>,
    m: StfsMetadata,
    t: Tables,
    files: Seq<ListedFile>,
    b: int,
)
    requires
        package_of(bytes, m) == Ok::<(Tables, Seq<ListedFile>), StfsReadError>((t, files)),
        0 <= b < m.volume_descriptor.allocated_block_count,
    ensures
        ({
            let first = (m.header_size as int + 0xFFF) / 0x1000 * 0x1000;
            let separation = m.volume_descriptor.block_separation;
            let n = m.volume_descriptor.allocated_block_count as int;
            let at = level0_in_use(bytes, first, separation, n, b) + b % 0xAA * 0x18;
            &&& t.record_address(b) == at
            &&& t.g.data_address(b) == data_place(first, copies_kept(separation), b)
            &&& at + 0x18 <= bytes.len() ==> t.next(bytes, b) == Ok::<int, StfsReadError>(
                bytes[at + 0x15] * 0x1_0000 + bytes[at + 0x16] * 0x100 + bytes[at + 0x17],
            )
            &&& at + 0x18 > bytes.len() ==> t.next(bytes, b) is Err
        }),
{
    let first = (m.header_size as int + 0xFFF) / 0x1000 * 0x1000;
    let separation = m.volume_descriptor.block_separation;
    let n = m.volume_descriptor.allocated_block_count as int;
    let g = geometry_of(bytes, m)->Ok_0;
    let c = copies_kept(separation);
    assert(g.first_hash_table_address == first);
    assert(g.c() == c);
    assert(t.g == g);
    positions_are_places(first, c, b);
    table_positions_are_places(first, c, 0);
    assert(g.top_address() == top_in_use(first, separation, n));
    if n > 0xAA {
        let k = if n <= 0x70E4 {
            b / 0xAA
        } else {
            b / 0x70E4
        };
        assert(0 <= k < g.top_entries());
        assert(t.top[k] == bytes[g.top_address() + k * 0x18 + 0x14]);
        if n > 0x70E4 {
            table_positions_are_places(first, c, k);
            lemma_group(bytes, g, t.top, t.top.len() as int, k);
            let table = level1_address(g, t.top, k);
            assert(table == level1_in_use(bytes, first, separation, n, k));
            assert(t.level1[k][b % 0xAA] == bytes[table + b % 0xAA * 0x18 + 0x14]);
        }
    }
    let at = t.record_address(b);
    assert(at == level0_in_use(bytes, first, separation, n, b) + b % 0xAA * 0x18);
    if at + 0x18 <= bytes.len() {
        let f = field(bytes, at + 0x15, 3);
        reveal_with_fuel(be_val, 4);
        assert(f.drop_last().drop_last().drop_last().len() == 0);
        assert(f[0] == bytes[at + 0x15] && f[1] == bytes[at + 0x16] && f[2] == bytes[at + 0x17]);
        assert(f.last() == f[2]);
        assert(f.drop_last().last() == f[1]);
        assert(f.drop_last().drop_last().last() == f[0]);
    }
}

/// `blocks` follow each other in a chain, each where the record of the one before says.
pub open spec fn is_chain(t: Tables, bytes: Seq<u8>, blocks: Seq<int>) -> bool {
    &&& forall|i: int|
        0 <= i < blocks.len() ==> 0 <= #[trigger] blocks[i] < t.g.allocated
            && t.g.data_address(blocks[i]) + 0x1000 <= bytes.len()
    &&& forall|i: int|
        0 <= i < blocks.len() - 1 ==> #[trigger] t.next(bytes, blocks[i]) == Ok::<
            int,
            StfsReadError,
        >(blocks[i + 1]) && blocks[i + 1] != 0xFF_FFFF
}

/// The bytes of a file that lies in these blocks.
pub open spec fn in_blocks(t: Tables, bytes: Seq<u8>, blocks: Seq<int>, offset: int, n: int) -> Seq<
    u8,
> {
    Seq::new(
        n as nat,
        |j: int|
            bytes[t.g.data_address(blocks[(offset + j) / 0x1000]) + (offset + j) % 0x1000],
    )
}

proof fn lemma_chain_from(t: Tables, bytes: Seq<u8>, blocks: Seq<int>, i: int, steps: nat)
    requires
        is_chain(t, bytes, blocks),
        0 <= i,
        i + steps < blocks.len(),
    ensures
        t.chain_from(bytes, blocks[i], steps) == Ok::<int, StfsReadError>(
            blocks[i + steps as int],
        ),
    decreases steps,
{
    if steps > 0 {
        assert(t.next(bytes, blocks[i]) == Ok::<int, StfsReadError>(blocks[i + 1]));
        lemma_chain_from(t, bytes, blocks, i + 1, (steps - 1) as nat);
    }
}

proof fn lemma_read_from(
    t: Tables,
    bytes: Seq<u8>,
    blocks: Seq<int>,
    i: int,
    pos: int,
    n: int,
)
    requires
        is_chain(t, bytes, blocks),
        0 <= i < blocks.len(),
        0 <= pos < 0x1000,
        0 <= n,
        i * 0x1000 + pos + n <= blocks.len() * 0x1000,
        0 <= t.g.data_address(0),
        forall|k: int| 0 <= k < blocks.len() ==> 0 <= t.g.data_address(#[trigger] blocks[k]),
    ensures
        t.read_from(bytes, blocks[i], pos, n) == Ok::<Seq<u8>, StfsReadError>(
            in_blocks(t, bytes, blocks, i * 0x1000 + pos, n),
        ),
    decreases n,
{
    let m = if n < 0x1000 - pos {
        n
    } else {
        0x1000 - pos
    };
    let all = in_blocks(t, bytes, blocks, i * 0x1000 + pos, n);
    if n == 0 {
        assert(all =~= Seq::empty());
    } else {
        assert(0 <= blocks[i] < t.g.allocated);
        let piece = field(bytes, t.g.data_address(blocks[i]) + pos, m);
        assert(piece =~= all.take(m)) by {
            assert forall|j: int| 0 <= j < m implies #[trigger] all[j] == piece[j] by {
                assert((i * 0x1000 + pos + j) / 0x1000 == i);
                assert((i * 0x1000 + pos + j) % 0x1000 == pos + j);
            }
        }
        if m == n {
            assert(all.take(m) =~= all);
        } else {
            lemma_chain_from(t, bytes, blocks, i, 1);
            lemma_read_from(t, bytes, blocks, i + 1, 0, n - m);
            let rest = in_blocks(t, bytes, blocks, (i + 1) * 0x1000, n - m);
            assert(piece + rest =~= all) by {
                assert forall|j: int| m <= j < n implies #[trigger] all[j] == rest[j - m] by {
                    assert(i * 0x1000 + pos + j == (i + 1) * 0x1000 + (j - m));
                }
            }
        }
    }
}

/// A file is read along its chain: byte `j` from `offset` on is byte `(offset + j) % 0x1000` of
/// the block number `(offset + j) / 0x1000` of the chain that begins with the file's first block.
pub proof fn files_are_read_along_their_chain(
    bytes: Seq<u8>,
    m: StfsMetadata,
    t: Tables,
    files: Seq<ListedFile>,
    blocks: Seq<int>,
    offset: int,
    n: int,
)
    requires
        package_of(bytes, m) == Ok::<(Tables, Seq<ListedFile>), StfsReadError>((t, files)),
        is_chain(t, bytes, blocks),
        blocks.len() > 0,
        0 <= offset,
        0 < n,
        offset + n <= blocks.len() * 0x1000,
    ensures
        t.file_range(bytes, blocks[0], offset, n) == Ok::<Seq<u8>, StfsReadError>(
            in_blocks(t, bytes, blocks, offset, n),
        ),
{
    let first = (m.header_size as int + 0xFFF) / 0x1000 * 0x1000;
    let separation = m.volume_descriptor.block_separation;
    let c = copies_kept(separation);
    assert(t.g == geometry_of(bytes, m)->Ok_0);
    assert forall|k: int| 0 <= k < blocks.len() implies 0 <= t.g.data_address(
        #[trigger] blocks[k],
    ) by {
        links_are_read_from_the_tables_in_use(bytes, m, t, files, blocks[k]);
        lemma_place_is_positive(first, c, blocks[k]);
    }
    links_are_read_from_the_tables_in_use(bytes, m, t, files, 0);
    lemma_place_is_positive(first, c, 0);
    let i = offset / 0x1000;
    lemma_chain_from(t, bytes, blocks, 0, i as nat);
    lemma_read_from(t, bytes, blocks, i, offset % 0x1000, n);
    assert(i * 0x1000 + offset % 0x1000 == offset);
}

proof fn lemma_place_is_positive(first: int, c: int, b: int)
    requires
        c == 1 || c == 2,
        0 <= b,
        0 <= first,
    ensures
        0 <= data_place(first, c, b),
{
    if c == 1 {
        assert(data_place(first, 1, b) >= 0);
    } else {
        assert(data_place(first, 2, b) >= 0);
    }
}

/// A read is refused where it goes past the end of its file, or where there is no such file. So is
/// one that comes to a block that the package does not have, or whose chain ends before it does.
pub proof fn reads_past_the_end_are_refused<S: ByteSource>(
    r: StfsReader<S>,
    idx: int,
    offset: int,
    n: int,
)
    requires
        0 <= idx,
        0 <= offset,
        0 <= n,
    ensures
        idx >= r.files@.len() ==> r.file_bytes(idx, offset, n) is Err,
        idx < r.files@.len() && offset + n > r.files@[idx].2 ==> r.file_bytes(idx, offset, n)
            is Err,
        idx < r.files@.len() && n > 0 && offset < 0x1000 && r.files@[idx].1
            >= r.allocated_block_count ==> r.file_bytes(idx, offset, n) is Err,
{
    if idx < r.files@.len() && n > 0 && offset < 0x1000 && offset + n <= r.files@[idx].2 {
        assert(offset / 0x1000 == 0);
        assert(offset % 0x1000 == offset);
    }
}

/// A chain that points nowhere is not followed, and none leads out of the package.
pub proof fn broken_chains_are_refused(t: Tables, bytes: Seq<u8>, b: int, steps: nat)
    requires
        steps > 0,
    ensures
        b >= t.g.allocated ==> t.chain_from(bytes, b, steps) is Err,
        t.next(bytes, b) == Ok::<int, StfsReadError>(0xFF_FFFF) ==> t.chain_from(bytes, b, steps)
            is Err,
        t.next(bytes, b) matches Ok(n) && n != 0xFF_FFFF ==> t.chain_from(bytes, b, steps)
            == t.chain_from(bytes, t.next(bytes, b)->Ok_0, (steps - 1) as nat),
{
}

} // verus!
