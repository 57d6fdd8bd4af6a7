//! What a written archive holds, byte by byte.
use crate::bytes::{be_bytes, field, overwrite, zeros};
use crate::digest::sha256_of;
use crate::pieces::end_to_end;
use crate::source::FileSource;
use crate::utils::text::{in_dictionary_order, lower};
use crate::zar::archive::archive_of;
use crate::zar::format::{win1252_byte, ZarFooter};
use crate::zar::layout::{
    child_start, is_breadth_first, is_sorted_tree, lemma_name_table_grows, name_entry, name_offset,
    name_table, stored_name, tree_entry, tree_section,
};
use crate::zar::listing::{entry_name_at, lemma_tree_section, siblings_stand_in_dictionary_order};
use crate::zar::read::{name_at, tree_of_bytes, TreeNodeRaw};
use crate::zar::round_trip::{
    is_whole_run, lemma_offset_section, lemma_size_fields, lemma_stored_data_grows, lemma_tree_fits,
    tree_fits, whole_run_is_the_archive,
};
use crate::zar::tree::{data_before, tree_of_files, TreeError, TreeModel};
use crate::zar::write::{
    archive_footer, archive_hash, archive_image, block_count, body_part, data_part, is_archive_tree,
    joined_data, lemma_data_before, lemma_joined_grows, offset_record, offset_section, outgrows,
    pad8, raw_block, record_count, records_part, size_field, size_fields, source_list, stored_data,
    stored_form, zstd_compressed, ZarSession, ZarWriteError,
};
use vstd::prelude::*;

verus! {

broadcast use crate::bytes::group_fields;

/// Where block `k` of the data stands in an archive: behind the stored blocks before it.
pub open spec fn block_at(d: Seq<u8>, k: int) -> int {
    stored_data(d, k).len() as int
}

/// How many blocks of 0x1_0000 bytes the data takes.
pub open spec fn blocks_of(d: Seq<u8>) -> int {
    (d.len() as int + 0xFFFF) / 0x1_0000
}

/// Where the offset records stand: behind the stored blocks, at the next multiple of eight.
pub open spec fn records_at(d: Seq<u8>) -> int {
    (block_at(d, blocks_of(d)) + 7) / 8 * 8
}

/// Where the names stand: behind a record of 40 bytes for every 16 blocks.
pub open spec fn names_at(d: Seq<u8>) -> int {
    records_at(d) + (blocks_of(d) + 15) / 16 * 40
}

/// Eight bytes at `at` spell `v`.
pub open spec fn number_at(img: Seq<u8>, at: int, v: int) -> bool {
    img.subrange(at, at + 8) == be_bytes(v as nat, 8)
}

/// An archive ends with a footer of 144 bytes: where each of six sections stands and how long it
/// is, of which the last two are empty; a digest; the length of the archive; two numbers that say
/// what it is. The digest is the SHA-256 digest of the whole archive with its own 32 bytes zero.
/// The sections follow each other, and are the compressed data, the offset records, the names and
/// the file tree.
pub proof fn archive_ends_with_its_footer(d: Seq<u8>, names: Seq<u8>, tree: Seq<u8>)
    requires
        archive_hash(d, names, tree).len() == 32,
        archive_image(d, names, tree).len() <= u64::MAX,
    ensures
        ({
            let img = archive_image(d, names, tree);
            let f = img.len() - 144;
            let tree_at = names_at(d) + names.len();
            &&& f == tree_at + tree.len()
            &&& number_at(img, f, 0)
            &&& number_at(img, f + 8, block_at(d, blocks_of(d)))
            &&& number_at(img, f + 16, records_at(d))
            &&& number_at(img, f + 24, names_at(d) - records_at(d))
            &&& number_at(img, f + 32, names_at(d))
            &&& number_at(img, f + 40, names.len() as int)
            &&& number_at(img, f + 48, tree_at)
            &&& number_at(img, f + 56, tree.len() as int)
            &&& number_at(img, f + 64, f)
            &&& number_at(img, f + 72, 0)
            &&& number_at(img, f + 80, f)
            &&& number_at(img, f + 88, 0)
            &&& img.subrange(f + 96, f + 128) == sha256_of(overwrite(img, f + 96, zeros(32)))
            &&& number_at(img, f + 128, img.len() as int)
            &&& img.subrange(f + 136, f + 140) == seq![0x61u8, 0xBF, 0x3A, 0x01]
            &&& img.subrange(f + 140, f + 144) == seq![0x16u8, 0x9F, 0x52, 0xD6]
            &&& img.subrange(names_at(d), tree_at) == names
            &&& img.subrange(tree_at, f) == tree
            &&& forall|i: int|
                block_at(d, blocks_of(d)) <= i < records_at(d) ==> #[trigger] img[i] == 0
        }),
{
    let hash = archive_hash(d, names, tree);
    lemma_archive_sections(d, names, tree);
    lemma_footer_fields(d, names, tree, hash);
    lemma_archive_digest(d, names, tree);
    lemma_in_footer(d, names, tree, 0, 8);
    lemma_in_footer(d, names, tree, 8, 8);
    lemma_in_footer(d, names, tree, 16, 8);
    lemma_in_footer(d, names, tree, 24, 8);
    lemma_in_footer(d, names, tree, 32, 8);
    lemma_in_footer(d, names, tree, 40, 8);
    lemma_in_footer(d, names, tree, 48, 8);
    lemma_in_footer(d, names, tree, 56, 8);
    lemma_in_footer(d, names, tree, 64, 8);
    lemma_in_footer(d, names, tree, 72, 8);
    lemma_in_footer(d, names, tree, 80, 8);
    lemma_in_footer(d, names, tree, 88, 8);
    lemma_in_footer(d, names, tree, 96, 32);
    lemma_in_footer(d, names, tree, 128, 8);
    lemma_in_footer(d, names, tree, 136, 4);
    lemma_in_footer(d, names, tree, 140, 4);
}

/// The footer of an archive as it stands there.
proof fn lemma_in_footer(d: Seq<u8>, names: Seq<u8>, tree: Seq<u8>, a: int, n: int)
    requires
        archive_hash(d, names, tree).len() == 32,
        0 <= a,
        0 <= n,
        a + n <= 144,
    ensures
        ({
            let img = archive_image(d, names, tree);
            let f = img.len() - 144;
            img.subrange(f + a, f + a + n) == field(
                archive_footer(d, names, tree, archive_hash(d, names, tree)),
                a,
                n,
            )
        }),
{
    let img = archive_image(d, names, tree);
    let f = img.len() - 144;
    let foot = archive_footer(d, names, tree, archive_hash(d, names, tree));
    assert(foot.len() == 144);
    assert(img.subrange(f + a, f + a + n) =~= field(foot, a, n));
}

/// The sections of an archive as they stand there.
proof fn lemma_archive_sections(d: Seq<u8>, names: Seq<u8>, tree: Seq<u8>)
    requires
        archive_hash(d, names, tree).len() == 32,
    ensures
        ({
            let img = archive_image(d, names, tree);
            let f = img.len() - 144;
            let tree_at = names_at(d) + names.len();
            &&& stored_data(d, block_count(d)).len() == block_at(d, blocks_of(d))
            &&& data_part(d).len() == records_at(d)
            &&& records_part(d).len() == names_at(d)
            &&& body_part(d, names, tree).len() == f
            &&& f == tree_at + tree.len()
            &&& img.subrange(names_at(d), tree_at) == names
            &&& img.subrange(tree_at, f) == tree
            &&& forall|i: int|
                block_at(d, blocks_of(d)) <= i < records_at(d) ==> #[trigger] img[i] == 0
        }),
{
    let img = archive_image(d, names, tree);
    let stored = stored_data(d, block_count(d));
    lemma_offset_section(d, record_count(d));
    assert(block_count(d) == blocks_of(d));
    assert(record_count(d) == (blocks_of(d) + 15) / 16);
    assert(pad8(stored.len() as int) == records_at(d) - stored.len());
    assert(archive_footer(d, names, tree, archive_hash(d, names, tree)).len() == 144);
    assert(img.subrange(names_at(d), names_at(d) + names.len()) =~= names);
    assert(img.subrange(names_at(d) + names.len(), img.len() - 144) =~= tree);
}

/// The digest of an archive is that of the archive without it.
proof fn lemma_archive_digest(d: Seq<u8>, names: Seq<u8>, tree: Seq<u8>)
    requires
        archive_hash(d, names, tree).len() == 32,
    ensures
        ({
            let img = archive_image(d, names, tree);
            archive_hash(d, names, tree) == sha256_of(
                overwrite(img, img.len() - 144 + 96, zeros(32)),
            )
        }),
{
    let img = archive_image(d, names, tree);
    let hash = archive_hash(d, names, tree);
    lemma_footer_but_hash(d, names, tree, hash);
    assert(body_part(d, names, tree) + archive_footer(d, names, tree, zeros(32)) =~= overwrite(
        img,
        img.len() - 144 + 96,
        zeros(32),
    ));
}

proof fn lemma_footer_fields(d: Seq<u8>, names: Seq<u8>, tree: Seq<u8>, hash: Seq<u8>)
    requires
        hash.len() == 32,
        body_part(d, names, tree).len() + 144 <= u64::MAX,
    ensures
        ({
            let foot = archive_footer(d, names, tree, hash);
            let stored = stored_data(d, block_count(d)).len();
            let data = data_part(d).len();
            let recs = records_part(d).len();
            let end = body_part(d, names, tree).len();
            &&& foot.len() == 144
            &&& field(foot, 0, 8) == be_bytes(0, 8)
            &&& field(foot, 8, 8) == be_bytes(stored, 8)
            &&& field(foot, 16, 8) == be_bytes(data, 8)
            &&& field(foot, 24, 8) == be_bytes((recs - data) as nat, 8)
            &&& field(foot, 32, 8) == be_bytes(recs, 8)
            &&& field(foot, 40, 8) == be_bytes(names.len(), 8)
            &&& field(foot, 48, 8) == be_bytes(recs + names.len(), 8)
            &&& field(foot, 56, 8) == be_bytes(tree.len(), 8)
            &&& field(foot, 64, 8) == be_bytes(end, 8)
            &&& field(foot, 72, 8) == be_bytes(0, 8)
            &&& field(foot, 80, 8) == be_bytes(end, 8)
            &&& field(foot, 88, 8) == be_bytes(0, 8)
            &&& field(foot, 96, 32) == hash
            &&& field(foot, 128, 8) == be_bytes(end + 144, 8)
            &&& field(foot, 136, 4) == seq![0x61u8, 0xBF, 0x3A, 0x01]
            &&& field(foot, 140, 4) == seq![0x16u8, 0x9F, 0x52, 0xD6]
        }),
{
    let foot = archive_footer(d, names, tree, hash);
    let stored = stored_data(d, block_count(d)).len();
    let data = data_part(d).len();
    let recs = records_part(d).len();
    let end = body_part(d, names, tree).len();
    let x = six(0, stored, data, (recs - data) as nat, recs, names.len());
    let y = six(recs + names.len(), tree.len(), end, 0, end, 0);
    let z = be_bytes(end + 144, 8) + be_bytes(0x61BF_3A01, 4) + be_bytes(0x169F_52D6, 4);
    lemma_six(0, stored, data, (recs - data) as nat, recs, names.len());
    lemma_six(recs + names.len(), tree.len(), end, 0, end, 0);
    assert(foot =~= x + y + hash + z);
    assert forall|i: int| 0 <= i && i + 8 <= 48 implies #[trigger] field(foot, i, 8) == field(
        x,
        i,
        8,
    ) by {
        assert(field(foot, i, 8) =~= field(x, i, 8));
    }
    assert forall|i: int| 48 <= i && i + 8 <= 96 implies #[trigger] field(foot, i, 8) == field(
        y,
        i - 48,
        8,
    ) by {
        assert(field(foot, i, 8) =~= field(y, i - 48, 8));
    }
    assert(field(foot, 96, 32) =~= hash);
    assert(field(foot, 128, 8) =~= be_bytes(end + 144, 8));
    assert(field(foot, 136, 4) =~= be_bytes(0x61BF_3A01, 4));
    assert(field(foot, 140, 4) =~= be_bytes(0x169F_52D6, 4));
    lemma_marks();
}

proof fn lemma_marks()
    ensures
        be_bytes(0x61BF_3A01, 4) == seq![0x61u8, 0xBF, 0x3A, 0x01],
        be_bytes(0x169F_52D6, 4) == seq![0x16u8, 0x9F, 0x52, 0xD6],
{
    reveal_with_fuel(be_bytes, 5);
    assert(be_bytes(0x61BF_3A01, 4) =~= seq![0x61u8, 0xBF, 0x3A, 0x01]);
    assert(be_bytes(0x169F_52D6, 4) =~= seq![0x16u8, 0x9F, 0x52, 0xD6]);
}

/// Six numbers of eight bytes each.
spec fn six(a: nat, b: nat, c: nat, d: nat, e: nat, f: nat) -> Seq<u8> {
    be_bytes(a, 8) + be_bytes(b, 8) + be_bytes(c, 8) + be_bytes(d, 8) + be_bytes(e, 8) + be_bytes(
        f,
        8,
    )
}

proof fn lemma_six(a: nat, b: nat, c: nat, d: nat, e: nat, f: nat)
    ensures
        six(a, b, c, d, e, f).len() == 48,
        field(six(a, b, c, d, e, f), 0, 8) == be_bytes(a, 8),
        field(six(a, b, c, d, e, f), 8, 8) == be_bytes(b, 8),
        field(six(a, b, c, d, e, f), 16, 8) == be_bytes(c, 8),
        field(six(a, b, c, d, e, f), 24, 8) == be_bytes(d, 8),
        field(six(a, b, c, d, e, f), 32, 8) == be_bytes(e, 8),
        field(six(a, b, c, d, e, f), 40, 8) == be_bytes(f, 8),
{
    let s = six(a, b, c, d, e, f);
    assert(field(s, 0, 8) =~= be_bytes(a, 8));
    assert(field(s, 8, 8) =~= be_bytes(b, 8));
    assert(field(s, 16, 8) =~= be_bytes(c, 8));
    assert(field(s, 24, 8) =~= be_bytes(d, 8));
    assert(field(s, 32, 8) =~= be_bytes(e, 8));
    assert(field(s, 40, 8) =~= be_bytes(f, 8));
}

proof fn lemma_footer_but_hash(d: Seq<u8>, names: Seq<u8>, tree: Seq<u8>, hash: Seq<u8>)
    requires
        hash.len() == 32,
    ensures
        archive_footer(d, names, tree, hash).len() == 144,
        archive_footer(d, names, tree, zeros(32)) == overwrite(
            archive_footer(d, names, tree, hash),
            96,
            zeros(32),
        ),
{
    assert(archive_footer(d, names, tree, zeros(32)) =~= overwrite(
        archive_footer(d, names, tree, hash),
        96,
        zeros(32),
    ));
}

/// The data of an archive stands in blocks of 0x1_0000 bytes, the last one filled up with zeros,
/// one behind the other from the start: each as its zstd stream if that is shorter, else as it is.
/// The record of 16 blocks says where the first of them stands, and of each the stored length less
/// one, which is zero for blocks that are not there.
pub proof fn blocks_stand_where_their_records_say(
    d: Seq<u8>,
    names: Seq<u8>,
    tree: Seq<u8>,
    k: int,
)
    requires
        0 <= k < (blocks_of(d) + 15) / 16 * 16,
        forall|i: int|
            0 <= i < blocks_of(d) ==> zstd_compressed(#[trigger] raw_block(d, i)).len() > 0,
    ensures
        ({
            let img = archive_image(d, names, tree);
            let block = Seq::new(
                0x1_0000,
                |i: int|
                    if k * 0x1_0000 + i < d.len() {
                        d[k * 0x1_0000 + i]
                    } else {
                        0
                    },
            );
            let record = records_at(d) + k / 16 * 40;
            let size = record + 8 + k % 16 * 2;
            &&& block_at(d, 0) == 0
            &&& number_at(img, record, block_at(d, k / 16 * 16))
            &&& k < blocks_of(d) ==> {
                &&& block_at(d, k + 1) <= img.len()
                &&& img.subrange(block_at(d, k), block_at(d, k + 1)) == (if zstd_compressed(
                    block,
                ).len() < 0x1_0000 {
                    zstd_compressed(block)
                } else {
                    block
                })
                &&& img.subrange(size, size + 2) == be_bytes(
                    (block_at(d, k + 1) - block_at(d, k) - 1) as nat,
                    2,
                )
            }
            &&& k >= blocks_of(d) ==> img.subrange(size, size + 2) == be_bytes(0, 2)
        }),
{
    let img = archive_image(d, names, tree);
    let n = block_count(d);
    let r = k / 16;
    let slot = k % 16;
    assert(n == blocks_of(d));
    assert(record_count(d) == (n + 15) / 16);
    assert(r < record_count(d));
    lemma_offset_section(d, record_count(d));
    lemma_size_fields(d, r, 16);
    let recs = offset_section(d, record_count(d));
    let rec = offset_record(d, r);
    assert(field(recs, r * 40, 40) == rec);
    let data = data_part(d);
    assert(data.len() == records_at(d));
    let at = records_at(d) + r * 40;
    assert forall|i: int| 0 <= i < 40 implies #[trigger] img[at + i] == rec[i] by {
        assert(field(recs, r * 40, 40)[i] == recs[r * 40 + i]);
        assert(img[at + i] == recs[r * 40 + i]);
    }
    assert(rec.len() == 40);
    assert(img.subrange(at, at + 8) =~= be_bytes(stored_data(d, r * 16).len(), 8)) by {
        assert forall|i: int| 0 <= i < 8 implies img.subrange(at, at + 8)[i]
            == #[trigger] be_bytes(stored_data(d, r * 16).len(), 8)[i] by {
            assert(img[at + i] == rec[i]);
        }
    }
    let size = at + 8 + slot * 2;
    assert(field(size_fields(d, r, 16), slot * 2, 2) == be_bytes(
        size_field(d, r * 16 + slot) as nat,
        2,
    ));
    assert(img.subrange(size, size + 2) =~= field(size_fields(d, r, 16), slot * 2, 2)) by {
        assert forall|i: int| 0 <= i < 2 implies img.subrange(size, size + 2)[i] == #[trigger] field(
            size_fields(d, r, 16),
            slot * 2,
            2,
        )[i] by {
            assert(img[at + (8 + slot * 2 + i)] == rec[8 + slot * 2 + i]);
        }
    }
    if k < n {
        let block = Seq::new(
            0x1_0000,
            |i: int|
                if k * 0x1_0000 + i < d.len() {
                    d[k * 0x1_0000 + i]
                } else {
                    0
                },
        );
        assert(block =~= raw_block(d, k));
        lemma_stored_data_grows(d, k + 1, n);
        let all = stored_data(d, n);
        let upto = stored_data(d, k + 1);
        assert(upto == stored_data(d, k) + stored_form(raw_block(d, k)));
        assert(img.subrange(block_at(d, k), block_at(d, k + 1)) =~= stored_form(
            raw_block(d, k),
        )) by {
            assert forall|i: int| block_at(d, k) <= i < block_at(d, k + 1) implies #[trigger] img[i]
                == upto[i] by {
                assert(all.take(upto.len() as int)[i] == all[i]);
            }
        }
    }
}

/// The data of the files stands back to back in their order: byte `i` of file `f` is byte
/// `data_before(f) + i` of the data.
pub proof fn files_stand_back_to_back(contents: Seq<Seq<u8>>, f: int, n: int, i: int)
    requires
        0 <= f < n <= contents.len(),
        0 <= i < contents[f].len(),
    ensures
        joined_data(contents, 0).len() == 0,
        joined_data(contents, f + 1).len() == joined_data(contents, f).len() + contents[f].len(),
        joined_data(contents, f).len() + i < joined_data(contents, n).len(),
        joined_data(contents, n)[joined_data(contents, f).len() + i] == contents[f][i],
{
    let whole = joined_data(contents, n);
    let at = joined_data(contents, f).len() as int;
    crate::zar::write::file_stands_in_data(contents, f, n);
    assert(whole.subrange(at, at + contents[f].len())[i] == whole[at + i]);
}

/// Name `i` stands in the name table behind the names before it: its length in one byte, or from
/// 0x80 on in two, the low seven bits first with the top bit set; then a byte for each of its
/// characters, at most 0x7FFF of them.
pub proof fn names_stand_behind_their_lengths(names: Seq<Seq<char>>, i: int, j: int)
    requires
        0 <= i < names.len(),
    ensures
        ({
            let table = name_table(names, names.len() as int);
            let at = name_offset(names, i);
            let len = if names[i].len() < 0x7FFF {
                names[i].len() as int
            } else {
                0x7FFF
            };
            let head = if len < 0x80 {
                1int
            } else {
                2
            };
            &&& name_offset(names, 0) == 0
            &&& name_offset(names, i + 1) == at + head + len
            &&& at + head + len <= table.len()
            &&& len < 0x80 ==> table[at] == len
            &&& len >= 0x80 ==> table[at] == 0x80 + len % 0x80 && table[at + 1] == len / 0x80
            &&& 0 <= j < len ==> table[at + head + j] == win1252_byte(names[i][j])
        }),
{
    let table = name_table(names, names.len() as int);
    let at = name_offset(names, i);
    let entry = name_entry(names[i]);
    let upto = name_table(names, i + 1);
    lemma_name_table_grows(names, i + 1, names.len() as int);
    assert(upto == name_table(names, i) + entry);
    assert forall|x: int| 0 <= x < entry.len() implies #[trigger] entry[x] == table[at + x] by {
        assert(table.take(upto.len() as int)[at + x] == upto[at + x]);
    }
    let b = stored_name(names[i]);
    let head = entry.len() - b.len();
    assert(entry[0] == table[at + 0]);
    if b.len() >= 0x80 {
        assert(entry[1] == table[at + 1]);
    }
    if 0 <= j < b.len() {
        assert(entry[head + j] == table[at + (head + j)]);
        assert(entry[head + j] == b[j]);
    }
}

/// The entry of the node at position `p` of a file tree: 16 bytes, numbers big-endian. The first
/// says with its top bit that it is a file, and in the other bits where its name stands, which for
/// the root is nowhere. Of a file there follow the low halves of its place in the data and of its
/// size, then 16 bits more of the size and of the place; of a directory the position of its first
/// child and the number of its children.
pub proof fn entries_stand_in_sixteen_bytes(u: TreeModel, order: Seq<int>, p: int)
    requires
        u.wf(),
        is_breadth_first(u, order),
        0 <= p < order.len(),
        p == 0 || order[p] != 0,
    ensures
        ({
            let tree = tree_section(u, order, order.len() as int);
            let node = u.nodes[order[p]];
            let name = if p == 0 {
                0x7FFF_FFFF
            } else {
                name_offset(u.names, node.name_index) % 0x8000_0000
            };
            let e = tree.subrange(p * 16, p * 16 + 16);
            &&& tree.len() == order.len() * 16
            &&& node.is_file ==> {
                &&& e.subrange(0, 4) == be_bytes((name + 0x8000_0000) as nat, 4)
                &&& e.subrange(4, 8) == be_bytes(node.offset as nat, 4)
                &&& e.subrange(8, 12) == be_bytes(node.size as nat, 4)
                &&& e.subrange(12, 16) == be_bytes(
                    (node.size / 0x1_0000_0000 % 0x1_0000 * 0x1_0000 + node.offset / 0x1_0000_0000
                        % 0x1_0000) as nat,
                    4,
                )
            }
            &&& !node.is_file ==> {
                &&& e.subrange(0, 4) == be_bytes(name as nat, 4)
                &&& e.subrange(4, 8) == be_bytes(child_start(u, order, p) as nat, 4)
                &&& e.subrange(8, 12) == be_bytes(node.children.len(), 4)
                &&& e.subrange(12, 16) == be_bytes(0, 4)
            }
        }),
{
    let tree = tree_section(u, order, order.len() as int);
    lemma_tree_section(u, order, order.len() as int);
    assert(order[0] == 0);
    let e = tree_entry(u, order, p);
    assert(field(tree, p * 16, 16) == e);
    let node = u.nodes[order[p]];
    let name = if p == 0 {
        0x7FFF_FFFF
    } else {
        name_offset(u.names, node.name_index) % 0x8000_0000
    };
    if node.is_file {
        let high = node.offset / 0x1_0000_0000 % 0x1_0000 + node.size / 0x1_0000_0000 % 0x1_0000
            * 0x1_0000;
        assert(e == be_bytes((0x8000_0000 + name) as nat, 4) + be_bytes(node.offset as nat, 4)
            + be_bytes(node.size as nat, 4) + be_bytes(high as nat, 4));
        assert(e.subrange(0, 4) =~= be_bytes((0x8000_0000 + name) as nat, 4));
        assert(e.subrange(4, 8) =~= be_bytes(node.offset as nat, 4));
        assert(e.subrange(8, 12) =~= be_bytes(node.size as nat, 4));
        assert(e.subrange(12, 16) =~= be_bytes(high as nat, 4));
    } else {
        assert(e.subrange(0, 4) =~= be_bytes(name as nat, 4));
        assert(e.subrange(4, 8) =~= be_bytes(child_start(u, order, p) as nat, 4));
        assert(e.subrange(8, 12) =~= be_bytes(node.children.len(), 4));
        assert(e.subrange(12, 16) =~= be_bytes(0, 4));
    }
}

/// In the file tree of an archive of these files any two children of a directory stand in
/// dictionary order of their names without case.
pub proof fn tree_of_an_archive_is_sorted(
    list: Seq<(Seq<char>, int)>,
    t: TreeModel,
    names: Seq<u8>,
    tree: Seq<u8>,
    p: int,
    i: int,
    j: int,
)
    requires
        is_archive_tree(list, names, tree),
        tree_fits(list, t),
        0 <= p < tree_of_bytes(tree).len(),
        tree_of_bytes(tree)[p] matches TreeNodeRaw::Dir { node_start_index, count, .. }
            && node_start_index <= i < j < node_start_index + count,
    ensures
        j < tree_of_bytes(tree).len(),
        name_at(names, entry_name_at(tree_of_bytes(tree)[i])) matches Ok(a) && name_at(
            names,
            entry_name_at(tree_of_bytes(tree)[j]),
        ) matches Ok(b) && in_dictionary_order(lower(a), lower(b)),
{
    let (x, u, order) = choose|x: TreeModel, u: TreeModel, order: Seq<int>|
        {
            &&& tree_of_files(list, list.len() as int) == Ok::<TreeModel, TreeError>(x)
            &&& #[trigger] is_sorted_tree(x, u)
            &&& #[trigger] is_breadth_first(u, order)
            &&& names == name_table(u.names, u.names.len() as int)
            &&& tree == tree_section(u, order, order.len() as int)
        };
    assert(x == t);
    lemma_tree_fits(list, t, u);
    siblings_stand_in_dictionary_order(t, u, order, p, i, j);
}

/// What a session hands out from beginning to end carries its own SHA-256 digest, 48 bytes before
/// its end, and its length 16 bytes before it.
pub proof fn whole_run_carries_its_digest<F: FileSource>(
    states: Seq<ZarSession<F>>,
    sizes: Seq<usize>,
    chunks: Seq<Vec<u8>>,
    end: ZarSession<F>,
    last_size: usize,
)
    requires
        is_whole_run(states, sizes, chunks, end, last_size),
        states[0].handed_out@.len() == 0,
    ensures
        ({
            let z = end_to_end(chunks);
            let n = z.len() as int;
            &&& n >= 144
            &&& z.subrange(n - 48, n - 16) == sha256_of(overwrite(z, n - 48, zeros(32)))
            &&& number_at(z, n - 16, n)
            &&& z.subrange(n - 8, n) == seq![0x61u8, 0xBF, 0x3A, 0x01, 0x16, 0x9F, 0x52, 0xD6]
        }),
{
    whole_run_is_the_archive(states, sizes, chunks, end, last_size);
    let s = states[0];
    assert(end.total_emitted == end.image().len());
    lemma_archive_tail(s.data(), s.name_table_bytes@, s.file_tree_bytes@);
}

proof fn lemma_archive_tail(d: Seq<u8>, names: Seq<u8>, tree: Seq<u8>)
    requires
        archive_hash(d, names, tree).len() == 32,
        archive_image(d, names, tree).len() <= u64::MAX,
    ensures
        ({
            let z = archive_image(d, names, tree);
            let n = z.len() as int;
            &&& n >= 144
            &&& z.subrange(n - 48, n - 16) == sha256_of(overwrite(z, n - 48, zeros(32)))
            &&& number_at(z, n - 16, n)
            &&& z.subrange(n - 8, n) == seq![0x61u8, 0xBF, 0x3A, 0x01, 0x16, 0x9F, 0x52, 0xD6]
        }),
{
    let z = archive_image(d, names, tree);
    let n = z.len() as int;
    archive_ends_with_its_footer(d, names, tree);
    let f = n - 144;
    assert(f + 96 == n - 48 && f + 128 == n - 16 && f + 136 == n - 8);
    let tail = z.subrange(n - 8, n);
    assert(tail =~= z.subrange(f + 136, f + 140) + z.subrange(f + 140, f + 144));
    assert(seq![0x61u8, 0xBF, 0x3A, 0x01] + seq![0x16u8, 0x9F, 0x52, 0xD6] =~= seq![
        0x61u8,
        0xBF,
        0x3A,
        0x01,
        0x16,
        0x9F,
        0x52,
        0xD6,
    ]);
}

/// A file is no archive that can be read if it is too short for a footer, if the footer does not
/// say what it is, or says another length than it has, or if a section lies outside it or holds no
/// whole number of entries.
pub proof fn unfit_archives_are_refused(bytes: Seq<u8>, f: ZarFooter)
    requires
        archive_of(bytes, f) is Ok,
    ensures
        bytes.len() > 144,
        f.magic == 0x169F_52D6,
        f.version == 0x61BF_3A01,
        f.total_size == bytes.len(),
        f.compressed_data.offset + f.compressed_data.size <= bytes.len(),
        f.offset_records.offset + f.offset_records.size <= bytes.len(),
        f.names.offset + f.names.size <= bytes.len(),
        f.file_tree.offset + f.file_tree.size <= bytes.len(),
        f.offset_records.size % 40 == 0,
        f.file_tree.size % 16 == 0,
        f.file_tree.size > 0,
{
    let tree = field(bytes, f.file_tree.offset as int, f.file_tree.size as int);
    if f.file_tree.size == 0 {
        assert(tree_of_bytes(tree).len() == 0);
    }
}

/// Files are refused as too large only if their sizes together are more than 64 bits can count, or
/// the nodes of their tree or the bytes of its names more than 32 bits can.
pub proof fn countable_files_are_taken<F: FileSource>(
    files: F,
    base: String,
    r: Result<ZarSession<F>, ZarWriteError>,
    t: TreeModel,
)
    requires
        crate::zar::write::is_opened(files, base, r),
        files.paths().len() == files.contents().len(),
        tree_of_files(source_list(files), files.paths().len() as int) == Ok::<
            TreeModel,
            TreeError,
        >(t),
        t.nodes.len() <= 0xFFFF_FFFF,
        name_table(t.names, t.names.len() as int).len() <= 0xFFFF_FFFF,
        joined_data(files.contents(), files.contents().len() as int).len()
            <= 0xFFFF_FFFF_FFFF_FFFF,
    ensures
        r is Ok,
{
    let list = source_list(files);
    assert forall|k: int| !#[trigger] outgrows(list, k) by {
        if 0 <= k < list.len() {
            lemma_data_before(files.contents(), list, k + 1);
            lemma_joined_grows(files.contents(), k + 1, list.len() as int);
        }
    }
    assert forall|k: int| 0 <= k <= list.len() implies #[trigger] tree_of_files(list, k) is Ok by {
        lemma_earlier_trees(list, k, list.len() as int);
    }
}

proof fn lemma_earlier_trees(list: Seq<(Seq<char>, int)>, k: int, n: int)
    requires
        0 <= k <= n <= list.len(),
        tree_of_files(list, n) is Ok,
    ensures
        tree_of_files(list, k) is Ok,
    decreases n - k,
{
    if k < n {
        lemma_earlier_trees(list, k, n - 1);
    }
}

} // verus!
