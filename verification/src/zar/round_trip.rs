//! What an archive that was written reads back as.
use crate::bytes::{be_bytes, field, lemma_be_round_trip, lemma_pow256};
use crate::pieces::end_to_end;
use crate::source::{ByteSource, FileSource};
use crate::utils::paths::{components, joined};
use crate::utils::text::lower;
use crate::zar::archive::{
    archive_of, footer_region, records_of, span_is_bytes, ArchiveModel, ZarArchiveReader,
};
use crate::zar::format::{
    footer_bytes, footer_reads, footer_round_trips, ZarFooter, FOOTER_MAGIC, FOOTER_VERSION,
};
use crate::zar::layout::{
    is_breadth_first, is_sorted_tree, lemma_distinct_is_short, lemma_sorted_tree_wf, name_table,
    tree_entry, tree_section,
};
use crate::zar::listing::{
    files_of_a_tree_differ, fits_fields, lemma_is_listed, lemma_listed_is_a_file, lemma_order_is_full,
    lemma_path_components, listed_before, names_storable, no_path_is_listed_twice, storable,
    tree_reads_back,
};
use crate::zar::read::{tree_files, tree_of_bytes, ZarFile, ZarReadError};
use crate::zar::tree::{
    data_before, has_file, has_node, paths_tell_nodes_apart, same_but_case, stands_for,
    tree_holds_the_files, tree_of_files, TreeError, TreeModel,
};
use crate::zar::write::{
    archive_footer, archive_hash, archive_image, archive_sections, block_count, body_part,
    chunk_step, data_part, file_stands_in_data, is_archive_tree, joined_data, offset_record,
    offset_section, raw_block, record_count, round_trips, size_field, size_fields, source_list,
    stored_data, stored_form, Phase, ZarSession, ZarWriteError,
};
use vstd::prelude::*;

verus! {

broadcast use crate::bytes::group_fields;

/// Every block of `d` decodes to itself.
pub open spec fn blocks_round_trip(d: Seq<u8>) -> bool {
    forall|k: int| 0 <= k < block_count(d) ==> round_trips(#[trigger] raw_block(d, k))
}

proof fn lemma_stored_form(d: Seq<u8>, k: int)
    requires
        blocks_round_trip(d),
        0 <= k < block_count(d),
    ensures
        1 <= stored_form(raw_block(d, k)).len() <= 0x1_0000,
{
    assert(round_trips(raw_block(d, k)));
}

/// The size fields of a record stand two bytes apart.
pub proof fn lemma_size_fields(d: Seq<u8>, r: int, j: int)
    requires
        0 <= j,
    ensures
        size_fields(d, r, j).len() == 2 * j,
        forall|i: int|
            #![trigger size_field(d, r * 16 + i)]
            0 <= i < j ==> field(size_fields(d, r, j), 2 * i, 2) == be_bytes(
                size_field(d, r * 16 + i) as nat,
                2,
            ),
    decreases j,
{
    if j > 0 {
        lemma_size_fields(d, r, j - 1);
        let before = size_fields(d, r, j - 1);
        let now = size_fields(d, r, j);
        assert forall|i: int|
            #![trigger size_field(d, r * 16 + i)]
            0 <= i < j implies field(now, 2 * i, 2) == be_bytes(
            size_field(d, r * 16 + i) as nat,
            2,
        ) by {
            if i < j - 1 {
                assert(field(now, 2 * i, 2) =~= field(before, 2 * i, 2));
            } else {
                assert(field(now, 2 * i, 2) =~= be_bytes(size_field(d, r * 16 + i) as nat, 2));
            }
        }
    }
}

/// The offset records stand 40 bytes apart.
pub proof fn lemma_offset_section(d: Seq<u8>, k: int)
    requires
        0 <= k,
    ensures
        offset_section(d, k).len() == 40 * k,
        forall|r: int|
            0 <= r < k ==> field(offset_section(d, k), r * 40, 40) == #[trigger] offset_record(
                d,
                r,
            ),
    decreases k,
{
    if k > 0 {
        lemma_offset_section(d, k - 1);
        lemma_size_fields(d, k - 1, 16);
        let before = offset_section(d, k - 1);
        let now = offset_section(d, k);
        assert(offset_record(d, k - 1).len() == 40);
        assert forall|r: int| 0 <= r < k implies field(now, r * 40, 40) == #[trigger] offset_record(
            d,
            r,
        ) by {
            if r < k - 1 {
                assert(field(now, r * 40, 40) =~= field(before, r * 40, 40));
            } else {
                assert(field(now, r * 40, 40) =~= offset_record(d, r));
            }
        }
    }
}

/// What was stored of the data stays as more is stored behind it.
pub proof fn lemma_stored_data_grows(d: Seq<u8>, i: int, j: int)
    requires
        0 <= i <= j,
    ensures
        stored_data(d, i).len() <= stored_data(d, j).len(),
        stored_data(d, j).take(stored_data(d, i).len() as int) == stored_data(d, i),
    decreases j,
{
    let a = stored_data(d, i);
    if i < j {
        lemma_stored_data_grows(d, i, j - 1);
        assert(stored_data(d, j).take(a.len() as int) =~= stored_data(d, j - 1).take(
            a.len() as int,
        ));
    } else {
        assert(a.take(a.len() as int) =~= a);
    }
}

/// The record of blocks `16 r` and on reads back.
proof fn lemma_record(d: Seq<u8>, r: int)
    requires
        blocks_round_trip(d),
        0 <= r < record_count(d),
        stored_data(d, block_count(d)).len() <= u64::MAX,
    ensures
        ({
            let m = records_of(offset_section(d, record_count(d)))[r];
            &&& r < records_of(offset_section(d, record_count(d))).len()
            &&& m.base == stored_data(d, r * 16).len()
            &&& m.sizes.len() == 16
            &&& forall|j: int|
                0 <= j < 16 ==> (#[trigger] m.sizes[j]) == size_field(d, r * 16 + j)
        }),
{
    let n = record_count(d);
    lemma_offset_section(d, n);
    lemma_size_fields(d, r, 16);
    lemma_pow256();
    let rec = offset_record(d, r);
    assert(rec.len() == 40);
    assert(field(offset_section(d, n), r * 40, 40) == rec);
    assert(r * 16 <= block_count(d));
    lemma_stored_data_grows(d, r * 16, block_count(d));
    assert(field(rec, 0, 8) =~= be_bytes(stored_data(d, r * 16).len(), 8));
    lemma_be_round_trip(stored_data(d, r * 16).len(), 8);
    let m = records_of(offset_section(d, n))[r];
    assert forall|j: int| 0 <= j < 16 implies (#[trigger] m.sizes[j]) == size_field(
        d,
        r * 16 + j,
    ) by {
        let v = size_field(d, r * 16 + j);
        if r * 16 + j < block_count(d) {
            lemma_stored_form(d, r * 16 + j);
        }
        assert(0 <= v < 0x1_0000);
        assert(field(rec, 8 + 2 * j, 2) =~= field(size_fields(d, r, 16), 2 * j, 2));
        lemma_be_round_trip(v as nat, 2);
    }
}

proof fn lemma_block_offset(d: Seq<u8>, r: int, slot: int)
    requires
        blocks_round_trip(d),
        0 <= r < record_count(d),
        stored_data(d, block_count(d)).len() <= u64::MAX,
        0 <= slot < 16,
        r * 16 + slot < block_count(d),
    ensures
        records_of(offset_section(d, record_count(d)))[r].block_offset(slot) == stored_data(
            d,
            r * 16 + slot,
        ).len(),
    decreases slot,
{
    lemma_record(d, r);
    if slot > 0 {
        lemma_block_offset(d, r, slot - 1);
        lemma_stored_form(d, r * 16 + slot - 1);
        let m = records_of(offset_section(d, record_count(d)))[r];
        assert(m.sizes[slot - 1] == size_field(d, r * 16 + (slot - 1)));
    }
}

/// The sections of a written archive are found where the footer says.
proof fn lemma_sections(d: Seq<u8>, names: Seq<u8>, tree: Seq<u8>, f: ZarFooter)
    requires
        archive_image(d, names, tree).len() <= u64::MAX,
        archive_hash(d, names, tree).len() == 32,
        footer_reads(footer_region(archive_image(d, names, tree)), f),
    ensures
        ({
            let img = archive_image(d, names, tree);
            let s = archive_sections(d, names, tree);
            &&& f.sections() == s
            &&& f.total_size == img.len()
            &&& f.version == FOOTER_VERSION
            &&& f.magic == FOOTER_MAGIC
            &&& img.len() == body_part(d, names, tree).len() + 144
            &&& s.compressed_data.offset == 0
            &&& s.compressed_data.size <= img.len()
            &&& s.offset_records.offset + s.offset_records.size <= img.len()
            &&& s.names.offset + s.names.size <= img.len()
            &&& s.file_tree.offset + s.file_tree.size <= img.len()
            &&& s.offset_records.size == 40 * record_count(d)
            &&& s.names.size == names.len()
            &&& s.file_tree.size == tree.len()
            &&& field(img, s.offset_records.offset as int, s.offset_records.size as int)
                == offset_section(d, record_count(d))
            &&& field(img, s.names.offset as int, s.names.size as int) == names
            &&& field(img, s.file_tree.offset as int, s.file_tree.size as int) == tree
            &&& stored_data(d, block_count(d)).len() <= img.len()
            &&& img.take(stored_data(d, block_count(d)).len() as int) == stored_data(
                d,
                block_count(d),
            )
        }),
{
    let img = archive_image(d, names, tree);
    let hash = archive_hash(d, names, tree);
    let body = body_part(d, names, tree);
    let s = archive_sections(d, names, tree);
    let foot = archive_footer(d, names, tree, hash);
    let stored = stored_data(d, block_count(d));
    lemma_offset_section(d, record_count(d));
    assert(foot.len() == 144);
    assert(footer_region(img) =~= foot);
    assert(field(foot, 96, 32) =~= hash);
    let g = ZarFooter {
        compressed_data: s.compressed_data,
        offset_records: s.offset_records,
        names: s.names,
        file_tree: s.file_tree,
        meta_directory: s.meta_directory,
        meta_data: s.meta_data,
        hash: f.hash,
        total_size: (body.len() + 144) as u64,
        version: FOOTER_VERSION,
        magic: FOOTER_MAGIC,
    };
    assert(footer_bytes(g) =~= foot);
    footer_round_trips(g, f);
    let recs = offset_section(d, record_count(d));
    let data = data_part(d);
    assert(body =~= data + recs + names + tree);
    assert(field(img, data.len() as int, recs.len() as int) =~= recs);
    assert(field(img, (data.len() + recs.len()) as int, names.len() as int) =~= names);
    assert(field(img, (data.len() + recs.len() + names.len()) as int, tree.len() as int) =~= tree);
    assert(img.take(stored.len() as int) =~= stored);
}

/// Block `k` of a written archive reads back as the block that was stored.
proof fn lemma_block_reads_back(
    d: Seq<u8>,
    names: Seq<u8>,
    tree: Seq<u8>,
    f: ZarFooter,
    m: ArchiveModel,
    k: int,
)
    requires
        archive_image(d, names, tree).len() <= u64::MAX,
        archive_hash(d, names, tree).len() == 32,
        footer_reads(footer_region(archive_image(d, names, tree)), f),
        blocks_round_trip(d),
        0 <= k < block_count(d),
        m.data_offset == 0,
        m.records == records_of(offset_section(d, record_count(d))),
    ensures
        m.block_of(archive_image(d, names, tree), k) == Ok::<Seq<u8>, ZarReadError>(
            raw_block(d, k),
        ),
{
    let img = archive_image(d, names, tree);
    let n = block_count(d);
    lemma_sections(d, names, tree, f);
    let r = k / 16;
    let slot = k % 16;
    assert(r < record_count(d));
    assert(r * 16 + slot == k);
    lemma_record(d, r);
    lemma_block_offset(d, r, slot);
    lemma_stored_form(d, k);
    lemma_stored_data_grows(d, k + 1, n);
    let at = stored_data(d, k).len() as int;
    let form = stored_form(raw_block(d, k));
    let rec = m.records[r];
    assert(rec.sizes[slot] == size_field(d, r * 16 + slot));
    let upto = stored_data(d, k + 1);
    let all = stored_data(d, n);
    assert(field(img, at, form.len() as int) =~= form) by {
        assert forall|i: int| 0 <= i < form.len() implies img[at + i] == form[i] by {
            assert(img.take(all.len() as int)[at + i] == all[at + i]);
            assert(all.take(upto.len() as int)[at + i] == upto[at + i]);
        }
    }
    assert(round_trips(raw_block(d, k)));
}

/// Every component of every path is one that the name table holds as it is.
pub open spec fn paths_storable(list: Seq<(Seq<char>, int)>) -> bool {
    forall|f: int, j: int|
        0 <= f < list.len() && 0 <= j < components(list[f].0).len() ==> storable(
            #[trigger] components(list[f].0)[j],
        )
}

proof fn lemma_child_names(
    t: TreeModel,
    parts: Seq<Seq<char>>,
    depth: int,
    at: int,
    offset: int,
    size: int,
)
    requires
        names_storable(t),
        0 <= depth,
        forall|j: int| 0 <= j < parts.len() ==> storable(#[trigger] parts[j]),
    ensures
        t.with_path(parts, depth, at, offset, size) matches Ok(u) ==> names_storable(u),
    decreases parts.len() - depth,
{
    if depth < parts.len() {
        let part = parts[depth];
        let is_last = depth == parts.len() - 1;
        match t.child_named(at, part, 0) {
            Some(c) => {
                lemma_child_names(t, parts, depth + 1, c, offset, size);
            },
            None => {
                let u = t.with_child(at, part, is_last, offset, size);
                assert(names_storable(u)) by {
                    assert forall|i: int| 0 <= i < u.names.len() implies storable(
                        #[trigger] u.names[i],
                    ) by {
                        if i < t.names.len() {
                            assert(u.names[i] == t.names[i]);
                        }
                    }
                }
                lemma_child_names(u, parts, depth + 1, t.nodes.len() as int, offset, size);
            },
        }
    }
}

proof fn lemma_tree_names(list: Seq<(Seq<char>, int)>, k: int)
    requires
        paths_storable(list),
        0 <= k <= list.len(),
    ensures
        tree_of_files(list, k) matches Ok(t) ==> names_storable(t),
    decreases k,
{
    if k > 0 {
        lemma_tree_names(list, k - 1);
        if let Ok(t) = tree_of_files(list, k - 1) {
            let parts = components(list[k - 1].0);
            assert forall|j: int| 0 <= j < parts.len() implies storable(#[trigger] parts[j]) by {
                assert(storable(components(list[k - 1].0)[j]));
            }
            lemma_child_names(t, parts, 0, 0, data_before(list, k - 1), list[k - 1].1);
        }
    }
}

/// The files with their paths and sizes.
pub open spec fn listed_with(list: Seq<(Seq<char>, int)>, contents: Seq<Seq<u8>>) -> bool {
    &&& list.len() == contents.len()
    &&& forall|f: int| 0 <= f < list.len() ==> (#[trigger] list[f]).1 == contents[f].len()
}

proof fn lemma_data_before(list: Seq<(Seq<char>, int)>, contents: Seq<Seq<u8>>, k: int)
    requires
        listed_with(list, contents),
        0 <= k <= list.len(),
    ensures
        data_before(list, k) == joined_data(contents, k).len(),
    decreases k,
{
    if k > 0 {
        lemma_data_before(list, contents, k - 1);
        assert(list[k - 1].1 == contents[k - 1].len());
    }
}

/// What an archive holds, put together from its files.
pub open spec fn whole(contents: Seq<Seq<u8>>) -> Seq<u8> {
    joined_data(contents, contents.len() as int)
}

/// A span of the data of a written archive reads back as that span.
pub proof fn data_reads_back(
    d: Seq<u8>,
    names: Seq<u8>,
    tree: Seq<u8>,
    f: ZarFooter,
    m: ArchiveModel,
    at: int,
    n: int,
)
    requires
        archive_image(d, names, tree).len() <= u64::MAX,
        archive_hash(d, names, tree).len() == 32,
        footer_reads(footer_region(archive_image(d, names, tree)), f),
        blocks_round_trip(d),
        m.data_offset == 0,
        m.records == records_of(offset_section(d, record_count(d))),
        0 <= at,
        0 <= n,
        at + n <= d.len(),
    ensures
        m.span(archive_image(d, names, tree), at, n) == Ok::<Seq<u8>, ZarReadError>(
            d.subrange(at, at + n),
        ),
{
    let img = archive_image(d, names, tree);
    assert forall|j: int| 0 <= j < n implies #[trigger] m.block_of(img, (at + j) / 0x1_0000)
        == Ok::<Seq<u8>, ZarReadError>(raw_block(d, (at + j) / 0x1_0000)) by {
        lemma_block_reads_back(d, names, tree, f, m, (at + j) / 0x1_0000);
    }
    span_is_bytes(m, img, at, n);
    assert(m.bytes_at(img, at, n) =~= d.subrange(at, at + n)) by {
        assert forall|j: int| 0 <= j < n implies #[trigger] m.byte_at(img, at + j) == d[at + j] by {
            assert(m.block_of(img, (at + j) / 0x1_0000) == Ok::<Seq<u8>, ZarReadError>(
                raw_block(d, (at + j) / 0x1_0000),
            ));
        }
    }
}

/// File `k` of an archive is file `f` of those it was written from: it has its contents, and its
/// path but for the case of the directories, which is that of the first file in them.
pub open spec fn reads_as(
    m: ArchiveModel,
    img: Seq<u8>,
    k: int,
    list: Seq<(Seq<char>, int)>,
    contents: Seq<Seq<u8>>,
    f: int,
) -> bool {
    let parts = components(m.files[k].path);
    &&& 0 <= k < m.files.len()
    &&& 0 <= f < list.len()
    &&& m.files[k].size == contents[f].len()
    &&& forall|offset: int, n: int|
        0 <= offset && 0 <= n && offset + n <= contents[f].len() ==> #[trigger] m.span(
            img,
            m.files[k].offset + offset,
            n,
        ) == Ok::<Seq<u8>, ZarReadError>(contents[f].subrange(offset, offset + n))
    &&& same_but_case(parts, components(list[f].0))
    &&& parts.last() == components(list[f].0).last()
}

pub open spec fn is_read(
    m: ArchiveModel,
    img: Seq<u8>,
    list: Seq<(Seq<char>, int)>,
    contents: Seq<Seq<u8>>,
    f: int,
) -> bool {
    exists|k: int| #[trigger] reads_as(m, img, k, list, contents, f)
}

pub open spec fn was_written(
    m: ArchiveModel,
    img: Seq<u8>,
    k: int,
    list: Seq<(Seq<char>, int)>,
    contents: Seq<Seq<u8>>,
) -> bool {
    exists|f: int| #[trigger] reads_as(m, img, k, list, contents, f)
}

/// What an archive must be written from to read back: names that the name table holds as they
/// are, and sizes that the fields and the machine can count.
pub open spec fn is_countable(
    list: Seq<(Seq<char>, int)>,
    contents: Seq<Seq<u8>>,
    names: Seq<u8>,
    tree: Seq<u8>,
) -> bool {
    &&& listed_with(list, contents)
    &&& is_archive_tree(list, names, tree)
    &&& paths_storable(list)
    &&& whole(contents).len() < 0x1_0000_0000_0000
    &&& names.len() <= 0x7FFF_FFFF
    &&& tree.len() <= 0xF_FFFF_FFF0
    &&& tree.len() <= usize::MAX
    &&& 40 * record_count(whole(contents)) <= usize::MAX
    &&& archive_image(whole(contents), names, tree).len() <= u64::MAX
    &&& archive_hash(whole(contents), names, tree).len() == 32
    &&& blocks_round_trip(whole(contents))
}

/// An archive reads back as the files it was written from: it opens, every file is in it once,
/// with its contents and its path, there is no other, and no path is there twice.
pub proof fn archive_reads_back(
    list: Seq<(Seq<char>, int)>,
    contents: Seq<Seq<u8>>,
    names: Seq<u8>,
    tree: Seq<u8>,
    f: ZarFooter,
)
    requires
        is_countable(list, contents, names, tree),
        footer_reads(footer_region(archive_image(whole(contents), names, tree)), f),
    ensures
        ({
            let img = archive_image(whole(contents), names, tree);
            &&& archive_of(img, f) is Ok
            &&& archive_of(img, f) matches Ok(m) ==> {
                &&& forall|i: int|
                    0 <= i < list.len() ==> #[trigger] is_read(m, img, list, contents, i)
                &&& forall|k: int|
                    0 <= k < m.files.len() ==> #[trigger] was_written(m, img, k, list, contents)
                &&& forall|a: int, b: int, i: int, j: int| #[trigger]
                    reads_as(m, img, a, list, contents, i) && #[trigger] reads_as(
                        m,
                        img,
                        b,
                        list,
                        contents,
                        j,
                    ) ==> (a == b <==> i == j)
                &&& m.files.len() == list.len()
                &&& forall|a: int, b: int|
                    0 <= a < b < m.files.len() ==> (#[trigger] m.files[a]).path != (
                    #[trigger] m.files[b]).path
            }
        }),
{
    let d = whole(contents);
    let img = archive_image(d, names, tree);
    let n = list.len() as int;
    let (t, u, order) = choose|t: TreeModel, u: TreeModel, order: Seq<int>|
        {
            &&& tree_of_files(list, list.len() as int) == Ok::<TreeModel, TreeError>(t)
            &&& #[trigger] is_sorted_tree(t, u)
            &&& #[trigger] is_breadth_first(u, order)
            &&& names == name_table(u.names, u.names.len() as int)
            &&& tree == tree_section(u, order, order.len() as int)
        };
    tree_holds_the_files(list, n);
    lemma_archive_opens(list, contents, names, tree, f, t, u, order);
    let m = archive_of(img, f)->Ok_0;
    assert forall|j: int| 0 <= j < n implies #[trigger] is_read(m, img, list, contents, j) by {
        assert(has_node(t, list, j));
        let i = choose|i: int| #[trigger] stands_for(t, i, list, j);
        assert(u.nodes[i].is_file == t.nodes[i].is_file);
        let k = lemma_is_listed(u, order, i);
        lemma_node_reads(list, contents, names, tree, f, t, u, m, i, j, k);
    }
    assert forall|k: int| 0 <= k < m.files.len() implies #[trigger] was_written(
        m,
        img,
        k,
        list,
        contents,
    ) by {
        let i = lemma_listed_is_a_file(u, order, k);
        assert(t.nodes[i].is_file == u.nodes[i].is_file);
        assert(has_file(t, i, list, n));
        let j = choose|j: int| 0 <= j < n && #[trigger] stands_for(t, i, list, j);
        lemma_node_reads(list, contents, names, tree, f, t, u, m, i, j, k);
    }
    assert forall|a: int, b: int, i: int, j: int| #[trigger]
        reads_as(m, img, a, list, contents, i) && #[trigger] reads_as(
            m,
            img,
            b,
            list,
            contents,
            j,
        ) implies (a == b <==> i == j) by {
        lemma_read_once(m.files, u, order, list, a, b, i, j);
    }
    lemma_as_many_files(m, img, list, contents);
    assert forall|a: int, b: int| 0 <= a < b < m.files.len() implies (#[trigger] m.files[a]).path
        != (#[trigger] m.files[b]).path by {
        no_path_is_listed_twice(u, order, a, b);
    }
}

/// A written archive opens and lists the files of its tree.
#[verifier::spinoff_prover]
#[verifier::rlimit(60)]
proof fn lemma_archive_opens(
    list: Seq<(Seq<char>, int)>,
    contents: Seq<Seq<u8>>,
    names: Seq<u8>,
    tree: Seq<u8>,
    f: ZarFooter,
    t: TreeModel,
    u: TreeModel,
    order: Seq<int>,
)
    requires
        is_countable(list, contents, names, tree),
        footer_reads(footer_region(archive_image(whole(contents), names, tree)), f),
        tree_of_files(list, list.len() as int) == Ok::<TreeModel, TreeError>(t),
        is_sorted_tree(t, u),
        is_breadth_first(u, order),
        names == name_table(u.names, u.names.len() as int),
        tree == tree_section(u, order, order.len() as int),
    ensures
        u.wf(),
        names_storable(u),
        forall|i: int| 0 <= i < t.nodes.len() ==> #[trigger] u.path(i) == t.path(i),
        archive_of(archive_image(whole(contents), names, tree), f) == Ok::<
            ArchiveModel,
            ZarReadError,
        >(
            ArchiveModel {
                data_offset: 0,
                records: records_of(
                    offset_section(whole(contents), record_count(whole(contents))),
                ),
                files: listed_before(u, order, order.len() as int),
            },
        ),
{
    let d = whole(contents);
    let n = list.len() as int;
    tree_holds_the_files(list, n);
    lemma_sorted_tree_wf(t, u);
    lemma_order_is_full(u, order);
    lemma_section_len(u, order, order.len() as int);
    assert forall|f: int| 0 <= f < n implies 0 <= (#[trigger] list[f]).1 < 0x1_0000_0000_0000 && 0
        <= data_before(list, f) < 0x1_0000_0000_0000 by {
        lemma_data_before(list, contents, f);
        file_stands_in_data(contents, f, n);
    }
    assert(tree_fits(list, t));
    lemma_tree_fits(list, t, u);
    tree_reads_back(u, order);
    lemma_archive_of(d, names, tree, f, listed_before(u, order, order.len() as int));
}

/// What an archive is read as whose file tree lists `files`.
#[verifier::spinoff_prover]
#[verifier::rlimit(60)]
proof fn lemma_archive_of(
    d: Seq<u8>,
    names: Seq<u8>,
    tree: Seq<u8>,
    f: ZarFooter,
    files: Seq<ZarFile>,
)
    requires
        archive_image(d, names, tree).len() <= u64::MAX,
        archive_hash(d, names, tree).len() == 32,
        footer_reads(footer_region(archive_image(d, names, tree)), f),
        tree.len() % 16 == 0,
        tree.len() > 0,
        names.len() <= usize::MAX,
        tree.len() <= usize::MAX,
        40 * record_count(d) <= usize::MAX,
        tree_files(names, tree_of_bytes(tree)) == Ok::<Seq<ZarFile>, ZarReadError>(files),
    ensures
        archive_of(archive_image(d, names, tree), f) == Ok::<ArchiveModel, ZarReadError>(
            ArchiveModel {
                data_offset: 0,
                records: records_of(offset_section(d, record_count(d))),
                files,
            },
        ),
{
    lemma_sections(d, names, tree, f);
}

/// A file that is listed for node `i` is the file that the node stands for.
proof fn lemma_node_reads(
    list: Seq<(Seq<char>, int)>,
    contents: Seq<Seq<u8>>,
    names: Seq<u8>,
    tree: Seq<u8>,
    f: ZarFooter,
    t: TreeModel,
    u: TreeModel,
    m: ArchiveModel,
    i: int,
    j: int,
    k: int,
)
    requires
        is_countable(list, contents, names, tree),
        footer_reads(footer_region(archive_image(whole(contents), names, tree)), f),
        is_sorted_tree(t, u),
        u.wf(),
        names_storable(u),
        m.data_offset == 0,
        m.records == records_of(offset_section(whole(contents), record_count(whole(contents)))),
        0 <= j < list.len(),
        stands_for(t, i, list, j),
        u.path(i) == t.path(i),
        0 <= k < m.files.len(),
        m.files[k] == (ZarFile {
            path: joined(u.path(i)),
            offset: u.nodes[i].offset as u64,
            size: u.nodes[i].size as u64,
        }),
    ensures
        reads_as(m, archive_image(whole(contents), names, tree), k, list, contents, j),
{
    let d = whole(contents);
    let img = archive_image(d, names, tree);
    lemma_data_before(list, contents, j);
    file_stands_in_data(contents, j, list.len() as int);
    assert(u.nodes[i].offset == t.nodes[i].offset && u.nodes[i].size == t.nodes[i].size);
    let at = u.nodes[i].offset;
    assert forall|offset: int, n: int|
        0 <= offset && 0 <= n && offset + n <= contents[j].len() implies #[trigger] m.span(
        img,
        m.files[k].offset + offset,
        n,
    ) == Ok::<Seq<u8>, ZarReadError>(contents[j].subrange(offset, offset + n)) by {
        data_reads_back(d, names, tree, f, m, at + offset, n);
        assert(d.subrange(at + offset, at + offset + n) =~= d.subrange(
            at,
            at + contents[j].len(),
        ).subrange(offset, offset + n));
    }
    lemma_path_components(u, i);
}

proof fn lemma_same_but_case(a: Seq<Seq<char>>, b: Seq<Seq<char>>, c: Seq<Seq<char>>)
    requires
        same_but_case(a, b),
        same_but_case(c, b),
    ensures
        same_but_case(a, c),
{
    assert forall|i: int| 0 <= i < a.len() implies lower(#[trigger] a[i]) == lower(c[i]) by {
        assert(lower(c[i]) == lower(b[i]));
    }
}

/// Two listed files are the same exactly if they have the paths of the same files, but for case.
proof fn lemma_read_once(
    files: Seq<ZarFile>,
    u: TreeModel,
    order: Seq<int>,
    list: Seq<(Seq<char>, int)>,
    a: int,
    b: int,
    i: int,
    j: int,
)
    requires
        u.wf(),
        names_storable(u),
        is_breadth_first(u, order),
        files == listed_before(u, order, order.len() as int),
        tree_of_files(list, list.len() as int) is Ok,
        0 <= a < files.len(),
        0 <= b < files.len(),
        0 <= i < list.len(),
        0 <= j < list.len(),
        same_but_case(components(files[a].path), components(list[i].0)),
        same_but_case(components(files[b].path), components(list[j].0)),
    ensures
        a == b <==> i == j,
{
    let pa = components(files[a].path);
    let pb = components(files[b].path);
    if i == j && a != b {
        let x = lemma_listed_is_a_file(u, order, a);
        let y = lemma_listed_is_a_file(u, order, b);
        lemma_path_components(u, x);
        lemma_path_components(u, y);
        lemma_same_but_case(pa, components(list[i].0), pb);
        paths_tell_nodes_apart(u, x, y);
        if a < b {
            no_path_is_listed_twice(u, order, a, b);
        } else {
            no_path_is_listed_twice(u, order, b, a);
        }
    }
    if a == b && i != j {
        let ci = components(list[i].0);
        let cj = components(list[j].0);
        assert(same_but_case(ci, cj)) by {
            assert forall|x: int| 0 <= x < ci.len() implies lower(#[trigger] ci[x]) == lower(
                cj[x],
            ) by {
                assert(lower(pa[x]) == lower(ci[x]));
                assert(lower(pa[x]) == lower(cj[x]));
            }
        }
        if i < j {
            files_of_a_tree_differ(list, list.len() as int, i, j);
        } else {
            lemma_same_but_case(cj, cj, ci);
            files_of_a_tree_differ(list, list.len() as int, j, i);
        }
    }
}

/// There are as many files in an archive as were written.
proof fn lemma_as_many_files(
    m: ArchiveModel,
    img: Seq<u8>,
    list: Seq<(Seq<char>, int)>,
    contents: Seq<Seq<u8>>,
)
    requires
        forall|i: int| 0 <= i < list.len() ==> #[trigger] is_read(m, img, list, contents, i),
        forall|k: int|
            0 <= k < m.files.len() ==> #[trigger] was_written(m, img, k, list, contents),
        forall|a: int, b: int, i: int, j: int| #[trigger]
            reads_as(m, img, a, list, contents, i) && #[trigger] reads_as(
                m,
                img,
                b,
                list,
                contents,
                j,
            ) ==> (a == b <==> i == j),
    ensures
        m.files.len() == list.len(),
{
    let to = Seq::new(
        list.len(),
        |i: int| choose|k: int| #[trigger] reads_as(m, img, k, list, contents, i),
    );
    let from = Seq::new(
        m.files.len(),
        |k: int| choose|i: int| #[trigger] reads_as(m, img, k, list, contents, i),
    );
    assert forall|i: int| 0 <= i < to.len() implies reads_as(
        m,
        img,
        #[trigger] to[i],
        list,
        contents,
        i,
    ) by {
        assert(is_read(m, img, list, contents, i));
    }
    assert forall|k: int| 0 <= k < from.len() implies reads_as(
        m,
        img,
        k,
        list,
        contents,
        #[trigger] from[k],
    ) by {
        assert(was_written(m, img, k, list, contents));
    }
    lemma_distinct_is_short(to, m.files.len() as int);
    lemma_distinct_is_short(from, list.len() as int);
}

proof fn lemma_section_len(t: TreeModel, order: Seq<int>, k: int)
    requires
        0 <= k,
    ensures
        tree_section(t, order, k).len() == 16 * k,
    decreases k,
{
    if k > 0 {
        lemma_section_len(t, order, k - 1);
        assert(tree_entry(t, order, k - 1).len() == 16);
    }
}

/// File `k` of a listing is file `f` of `list`: it has its size, its place in the data, and its
/// path but for the case of the directories, which is that of the first file in them.
pub open spec fn listed_as(
    files: Seq<ZarFile>,
    k: int,
    list: Seq<(Seq<char>, int)>,
    f: int,
) -> bool {
    let parts = components(files[k].path);
    &&& 0 <= k < files.len()
    &&& 0 <= f < list.len()
    &&& files[k].offset == data_before(list, f)
    &&& files[k].size == list[f].1
    &&& same_but_case(parts, components(list[f].0))
    &&& parts.last() == components(list[f].0).last()
}

pub open spec fn has_place(files: Seq<ZarFile>, list: Seq<(Seq<char>, int)>, f: int) -> bool {
    exists|k: int| #[trigger] listed_as(files, k, list, f)
}

pub open spec fn is_from(files: Seq<ZarFile>, k: int, list: Seq<(Seq<char>, int)>) -> bool {
    exists|f: int| #[trigger] listed_as(files, k, list, f)
}

/// The tree of a list of files can be written out: its names are held as they are, and its
/// numbers fit the fields.
pub open spec fn tree_fits(list: Seq<(Seq<char>, int)>, t: TreeModel) -> bool {
    &&& tree_of_files(list, list.len() as int) == Ok::<TreeModel, TreeError>(t)
    &&& paths_storable(list)
    &&& t.nodes.len() <= u32::MAX
    &&& name_table(t.names, t.names.len() as int).len() <= 0x7FFF_FFFF
    &&& forall|f: int|
        0 <= f < list.len() ==> 0 <= (#[trigger] list[f]).1 < 0x1_0000_0000_0000 && 0
            <= data_before(list, f) < 0x1_0000_0000_0000
}

/// A tree that can be written out can be so sorted.
pub proof fn lemma_tree_fits(list: Seq<(Seq<char>, int)>, t: TreeModel, u: TreeModel)
    requires
        tree_fits(list, t),
        is_sorted_tree(t, u),
    ensures
        t.wf(),
        u.wf(),
        fits_fields(u),
        names_storable(u),
        forall|i: int| 0 <= i < t.nodes.len() ==> #[trigger] u.path(i) == t.path(i),
{
    let n = list.len() as int;
    tree_holds_the_files(list, n);
    lemma_sorted_tree_wf(t, u);
    lemma_tree_names(list, n);
    assert forall|i: int| 0 <= i < u.nodes.len() && (#[trigger] u.nodes[i]).is_file implies 0
        <= u.nodes[i].offset < 0x1_0000_0000_0000 && 0 <= u.nodes[i].size
        < 0x1_0000_0000_0000 by {
        assert(t.nodes[i].is_file);
        let j = choose|j: int| 0 <= j < n && #[trigger] stands_for(t, i, list, j);
        assert(list[j].1 == t.nodes[i].size);
    }
}

proof fn lemma_listed_as(
    files: Seq<ZarFile>,
    list: Seq<(Seq<char>, int)>,
    t: TreeModel,
    u: TreeModel,
    i: int,
    j: int,
    k: int,
)
    requires
        tree_fits(list, t),
        is_sorted_tree(t, u),
        u.wf(),
        names_storable(u),
        0 <= j < list.len(),
        stands_for(t, i, list, j),
        u.path(i) == t.path(i),
        0 <= k < files.len(),
        files[k] == (ZarFile {
            path: joined(u.path(i)),
            offset: u.nodes[i].offset as u64,
            size: u.nodes[i].size as u64,
        }),
    ensures
        listed_as(files, k, list, j),
{
    lemma_path_components(u, i);
    assert(0 <= list[j].1 < 0x1_0000_0000_0000);
    assert(u.nodes[i].offset == t.nodes[i].offset);
}

/// The name table and file tree that are built of a list of files read back as the files: each
/// one is listed once, with its path, its place and its size, and there is no other.
pub proof fn built_tree_lists_the_files(
    list: Seq<(Seq<char>, int)>,
    t: TreeModel,
    u: TreeModel,
    order: Seq<int>,
)
    requires
        tree_fits(list, t),
        is_sorted_tree(t, u),
        is_breadth_first(u, order),
    ensures
        ({
            let r = tree_files(
                name_table(u.names, u.names.len() as int),
                tree_of_bytes(tree_section(u, order, order.len() as int)),
            );
            let files = r->Ok_0;
            &&& r is Ok
            &&& forall|f: int| 0 <= f < list.len() ==> #[trigger] has_place(files, list, f)
            &&& forall|k: int| 0 <= k < files.len() ==> #[trigger] is_from(files, k, list)
            &&& forall|a: int, b: int, i: int, j: int| #[trigger]
                listed_as(files, a, list, i) && #[trigger] listed_as(files, b, list, j) ==> (a == b
                    <==> i == j)
        }),
{
    let n = list.len() as int;
    let files = listed_before(u, order, order.len() as int);
    lemma_tree_fits(list, t, u);
    tree_holds_the_files(list, n);
    tree_reads_back(u, order);
    assert forall|f: int| 0 <= f < list.len() implies #[trigger] has_place(files, list, f) by {
        assert(has_node(t, list, f));
        let i = choose|i: int| #[trigger] stands_for(t, i, list, f);
        assert(u.nodes[i].is_file == t.nodes[i].is_file);
        let k = lemma_is_listed(u, order, i);
        lemma_listed_as(files, list, t, u, i, f, k);
    }
    assert forall|k: int| 0 <= k < files.len() implies #[trigger] is_from(files, k, list) by {
        let i = lemma_listed_is_a_file(u, order, k);
        assert(t.nodes[i].is_file == u.nodes[i].is_file);
        assert(has_file(t, i, list, n));
        let f = choose|f: int| 0 <= f < n && #[trigger] stands_for(t, i, list, f);
        lemma_listed_as(files, list, t, u, i, f, k);
    }
    assert forall|a: int, b: int, i: int, j: int| #[trigger]
        listed_as(files, a, list, i) && #[trigger] listed_as(files, b, list, j) implies (a == b
        <==> i == j) by {
        lemma_read_once(files, u, order, list, a, b, i, j);
    }
}

/// Session `a` hands out the piece `chunk` and becomes `b`.
pub open spec fn hands_out<F: FileSource>(
    a: ZarSession<F>,
    b: ZarSession<F>,
    max_bytes: usize,
    chunk: Vec<u8>,
) -> bool {
    chunk_step(a, b, max_bytes, Ok::<Option<Vec<u8>>, ZarWriteError>(Some(chunk)))
}

/// A session goes through `states` and hands out `chunks`, one between each two of them; then,
/// asked for `last_size` bytes, it has no more.
pub open spec fn is_whole_run<F: FileSource>(
    states: Seq<ZarSession<F>>,
    sizes: Seq<usize>,
    chunks: Seq<Vec<u8>>,
    end: ZarSession<F>,
    last_size: usize,
) -> bool {
    &&& states.len() == chunks.len() + 1
    &&& sizes.len() == chunks.len()
    &&& forall|i: int|
        0 <= i < chunks.len() ==> #[trigger] hands_out(
            states[i],
            states[i + 1],
            sizes[i],
            chunks[i],
        )
    &&& last_size > 0
    &&& chunk_step(states.last(), end, last_size, Ok::<Option<Vec<u8>>, ZarWriteError>(None))
}

proof fn lemma_run<F: FileSource>(
    states: Seq<ZarSession<F>>,
    sizes: Seq<usize>,
    chunks: Seq<Vec<u8>>,
    k: int,
)
    requires
        states.len() == chunks.len() + 1,
        forall|i: int|
            0 <= i < chunks.len() ==> #[trigger] hands_out(
                states[i],
                states[i + 1],
                sizes[i],
                chunks[i],
            ),
        states[0].handed_out@.len() == 0,
        0 <= k <= chunks.len(),
    ensures
        states[k].same_archive(&states[0]),
        states[k].handed_out@ == end_to_end(chunks.take(k)),
    decreases k,
{
    if k > 0 {
        lemma_run(states, sizes, chunks, k - 1);
        let i = k - 1;
        assert(hands_out(states[i], states[i + 1], sizes[i], chunks[i]));
        assert(chunks.take(k).drop_last() =~= chunks.take(i));
        assert(chunks.take(k).last() == chunks[i]);
    } else {
        assert(states[0].handed_out@ =~= Seq::empty());
    }
}

/// The pieces that a session hands out from beginning to end are the archive, whatever sizes were
/// asked for, and only then is the session done.
pub proof fn whole_run_is_the_archive<F: FileSource>(
    states: Seq<ZarSession<F>>,
    sizes: Seq<usize>,
    chunks: Seq<Vec<u8>>,
    end: ZarSession<F>,
    last_size: usize,
)
    requires
        is_whole_run(states, sizes, chunks, end, last_size),
        states[0].handed_out@.len() == 0,
    ensures
        end.is_finished(),
        end.wf(),
        end.same_archive(&states[0]),
        end_to_end(chunks) == states[0].image(),
        forall|i: int| 0 <= i < chunks.len() ==> (#[trigger] chunks[i])@.len() <= sizes[i],
{
    let n = chunks.len() as int;
    lemma_run(states, sizes, chunks, n);
    assert(chunks.take(n) =~= chunks);
    assert(states[n] == states.last());
    assert(end.handed_out@ =~= end.emitted());
    assert forall|i: int| 0 <= i < chunks.len() implies (#[trigger] chunks[i])@.len() <= sizes[i] by {
        assert(hands_out(states[i], states[i + 1], sizes[i], chunks[i]));
    }
}

/// A session makes the archive of its own files, as `ZarSession::open` leaves it, and the archive
/// is one that can be read: its names are held as they are and found in 31 bits, its data is
/// counted in 48, and its index fits memory.
pub open spec fn makes_readable<F: FileSource>(s: ZarSession<F>) -> bool {
    let list = source_list(s.source);
    &&& s.wf()
    &&& s.handed_out@.len() == 0
    &&& s.source.paths().len() == s.source.contents().len()
    &&& is_archive_tree(list, s.name_table_bytes@, s.file_tree_bytes@)
    &&& paths_storable(list)
    &&& s.name_table_bytes@.len() <= 0x7FFF_FFFF
    &&& s.data().len() < 0x1_0000_0000_0000
    &&& 40 * record_count(s.data()) <= usize::MAX
}

proof fn lemma_run_is_countable<F: FileSource>(
    states: Seq<ZarSession<F>>,
    sizes: Seq<usize>,
    chunks: Seq<Vec<u8>>,
    end: ZarSession<F>,
    last_size: usize,
)
    requires
        is_whole_run(states, sizes, chunks, end, last_size),
        makes_readable(states[0]),
    ensures
        is_countable(
            source_list(states[0].source),
            states[0].source.contents(),
            states[0].name_table_bytes@,
            states[0].file_tree_bytes@,
        ),
        end_to_end(chunks) == archive_image(
            whole(states[0].source.contents()),
            states[0].name_table_bytes@,
            states[0].file_tree_bytes@,
        ),
        end_to_end(chunks).len() > 144,
{
    whole_run_is_the_archive(states, sizes, chunks, end, last_size);
    let s = states[0];
    let d = s.data();
    let contents = s.source.contents();
    assert(d == whole(contents));
    assert(end.data() == d);
    assert(end.phase == Phase::Done);
    assert(end.total_emitted == end.image().len());
    assert(s.file_tree_bytes.len() == s.file_tree_bytes@.len());
    assert(blocks_round_trip(d)) by {
        assert forall|k: int| 0 <= k < block_count(d) implies round_trips(
            #[trigger] raw_block(d, k),
        ) by {
            assert(0 <= k < end.blocks_written);
        }
    }
    let (t, u, order) = choose|t: TreeModel, u: TreeModel, order: Seq<int>|
        {
            &&& tree_of_files(source_list(s.source), source_list(s.source).len() as int) == Ok::<
                TreeModel,
                TreeError,
            >(t)
            &&& #[trigger] is_sorted_tree(t, u)
            &&& #[trigger] is_breadth_first(u, order)
            &&& s.name_table_bytes@ == name_table(u.names, u.names.len() as int)
            &&& s.file_tree_bytes@ == tree_section(u, order, order.len() as int)
        };
    lemma_section_len(u, order, order.len() as int);
    assert(order.len() >= 1);
}

/// What a session hands out from beginning to end is an archive that opens.
pub proof fn whole_run_opens<F: FileSource>(
    states: Seq<ZarSession<F>>,
    sizes: Seq<usize>,
    chunks: Seq<Vec<u8>>,
    end: ZarSession<F>,
    last_size: usize,
    f: ZarFooter,
)
    requires
        is_whole_run(states, sizes, chunks, end, last_size),
        makes_readable(states[0]),
        footer_reads(footer_region(end_to_end(chunks)), f),
    ensures
        end_to_end(chunks).len() > 144,
        archive_of(end_to_end(chunks), f) is Ok,
{
    lemma_run_is_countable(states, sizes, chunks, end, last_size);
    archive_reads_back(
        source_list(states[0].source),
        states[0].source.contents(),
        states[0].name_table_bytes@,
        states[0].file_tree_bytes@,
        f,
    );
}

/// `rd` is a reader of the archive `img`.
pub open spec fn is_reader_of<S: ByteSource>(rd: ZarArchiveReader<S>, img: Seq<u8>) -> bool {
    &&& rd.wf()
    &&& rd.source.bytes() == img
    &&& exists|f: ZarFooter|
        footer_reads(footer_region(img), f) && #[trigger] archive_of(img, f) == Ok::<
            ArchiveModel,
            ZarReadError,
        >(rd.model())
}

/// File `k` that the reader lists is file `f` of `files`: it has its size, any range of its
/// contents, and its path but for the case of the directories.
pub open spec fn holds_file<F: FileSource, S: ByteSource>(
    rd: ZarArchiveReader<S>,
    k: int,
    files: F,
    f: int,
) -> bool {
    let content = files.contents()[f];
    let parts = components(rd.paths()[k]);
    &&& 0 <= k < rd.paths().len()
    &&& 0 <= f < files.paths().len()
    &&& rd.files@[k].2 == content.len()
    &&& forall|offset: int, n: int|
        0 <= offset && 0 <= n ==> #[trigger] rd.file_bytes(k, offset, n) == (if offset + n
            <= content.len() {
            Ok::<Seq<u8>, ZarReadError>(content.subrange(offset, offset + n))
        } else {
            Err::<Seq<u8>, ZarReadError>(ZarReadError::PastEndOfFile)
        })
    &&& same_but_case(parts, components(files.paths()[f]))
    &&& parts.last() == components(files.paths()[f]).last()
}

pub open spec fn is_held<F: FileSource, S: ByteSource>(
    rd: ZarArchiveReader<S>,
    files: F,
    f: int,
) -> bool {
    exists|k: int| #[trigger] holds_file(rd, k, files, f)
}

pub open spec fn is_one_of<F: FileSource, S: ByteSource>(
    rd: ZarArchiveReader<S>,
    k: int,
    files: F,
) -> bool {
    exists|f: int| #[trigger] holds_file(rd, k, files, f)
}

/// What a session hands out from beginning to end reads back as the files it was opened with: a
/// reader opened over it lists each of them once and no other, with its size, and gives any range
/// of its contents; ranges past its end, and files past the last, are refused.
pub proof fn whole_run_reads_back<F: FileSource, S: ByteSource>(
    states: Seq<ZarSession<F>>,
    sizes: Seq<usize>,
    chunks: Seq<Vec<u8>>,
    end: ZarSession<F>,
    last_size: usize,
    rd: ZarArchiveReader<S>,
)
    requires
        is_whole_run(states, sizes, chunks, end, last_size),
        makes_readable(states[0]),
        is_reader_of(rd, end_to_end(chunks)),
    ensures
        rd.paths().len() == states[0].source.paths().len(),
        forall|f: int|
            0 <= f < states[0].source.paths().len() ==> #[trigger] is_held(
                rd,
                states[0].source,
                f,
            ),
        forall|k: int|
            0 <= k < rd.paths().len() ==> #[trigger] is_one_of(rd, k, states[0].source),
        forall|a: int, b: int, i: int, j: int| #[trigger]
            holds_file(rd, a, states[0].source, i) && #[trigger] holds_file(
                rd,
                b,
                states[0].source,
                j,
            ) ==> (a == b <==> i == j),
        forall|k: int, offset: int, n: int|
            k >= rd.paths().len() ==> #[trigger] rd.file_bytes(k, offset, n) == Err::<
                Seq<u8>,
                ZarReadError,
            >(ZarReadError::NoSuchFile),
{
    let s = states[0];
    let list = source_list(s.source);
    let contents = s.source.contents();
    let img = end_to_end(chunks);
    let f = choose|f: ZarFooter|
        footer_reads(footer_region(img), f) && #[trigger] archive_of(img, f) == Ok::<
            ArchiveModel,
            ZarReadError,
        >(rd.model());
    lemma_run_is_countable(states, sizes, chunks, end, last_size);
    archive_reads_back(list, contents, s.name_table_bytes@, s.file_tree_bytes@, f);
    let m = rd.model();
    assert forall|k: int, i: int| #[trigger]
        holds_file(rd, k, s.source, i) <==> reads_as(m, img, k, list, contents, i) by {
        lemma_holds(rd, k, s.source, i);
    }
    assert forall|i: int| 0 <= i < s.source.paths().len() implies #[trigger] is_held(
        rd,
        s.source,
        i,
    ) by {
        assert(is_read(m, img, list, contents, i));
        let k = choose|k: int| #[trigger] reads_as(m, img, k, list, contents, i);
        assert(holds_file(rd, k, s.source, i));
    }
    assert forall|k: int| 0 <= k < rd.paths().len() implies #[trigger] is_one_of(
        rd,
        k,
        s.source,
    ) by {
        assert(was_written(m, img, k, list, contents));
        let i = choose|i: int| #[trigger] reads_as(m, img, k, list, contents, i);
        assert(holds_file(rd, k, s.source, i));
    }
}

proof fn lemma_holds<F: FileSource, S: ByteSource>(
    rd: ZarArchiveReader<S>,
    k: int,
    files: F,
    f: int,
)
    requires
        files.paths().len() == files.contents().len(),
    ensures
        holds_file(rd, k, files, f) <==> reads_as(
            rd.model(),
            rd.source.bytes(),
            k,
            source_list(files),
            files.contents(),
            f,
        ),
{
    let m = rd.model();
    let img = rd.source.bytes();
    let content = files.contents()[f];
    if 0 <= k < rd.files@.len() && 0 <= f < files.paths().len() && rd.files@[k].2
        == content.len() {
        if holds_file(rd, k, files, f) {
            assert forall|offset: int, n: int|
                0 <= offset && 0 <= n && offset + n <= content.len() implies #[trigger] m.span(
                img,
                m.files[k].offset + offset,
                n,
            ) == Ok::<Seq<u8>, ZarReadError>(content.subrange(offset, offset + n)) by {
                assert(rd.file_bytes(k, offset, n) == Ok::<Seq<u8>, ZarReadError>(
                    content.subrange(offset, offset + n),
                ));
            }
        }
        if reads_as(m, img, k, source_list(files), files.contents(), f) {
            assert forall|offset: int, n: int|
                0 <= offset && 0 <= n implies #[trigger] rd.file_bytes(k, offset, n) == (if offset
                + n <= content.len() {
                Ok::<Seq<u8>, ZarReadError>(content.subrange(offset, offset + n))
            } else {
                Err::<Seq<u8>, ZarReadError>(ZarReadError::PastEndOfFile)
            }) by {
                if offset + n <= content.len() {
                    assert(m.span(img, m.files[k].offset + offset, n) == Ok::<
                        Seq<u8>,
                        ZarReadError,
                    >(content.subrange(offset, offset + n)));
                }
            }
        }
    }
}

} // verus!
