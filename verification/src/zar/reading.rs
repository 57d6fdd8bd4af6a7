//! What is read from the sections of an archive, byte by byte.
use crate::bytes::{be_val, field};
use crate::source::{ByteSource, FileSource};
use crate::utils::safe_path::safe_component;
use crate::zar::archive::{
    archive_of, record_of, records_of, span_is_bytes, ArchiveModel, ZarArchiveReader,
};
use crate::zar::format::{footer_reads, win1252_text, ZarFooter};
use crate::zar::read::{
    name_at, tree_files, tree_of_bytes, visit_children, walk_files, zstd_decoded, TreeNodeRaw, Walk,
    ZarFile, ZarReadError,
};
use vstd::prelude::*;

verus! {

broadcast use crate::bytes::group_fields;

/// The number in two bytes, most significant first.
pub open spec fn two(b: Seq<u8>, at: int) -> int {
    b[at] * 0x100 + b[at + 1]
}

/// The number in four bytes, most significant first.
pub open spec fn four(b: Seq<u8>, at: int) -> int {
    two(b, at) * 0x1_0000 + two(b, at + 2)
}

/// The number in eight bytes, most significant first.
pub open spec fn eight(b: Seq<u8>, at: int) -> int {
    four(b, at) * 0x1_0000_0000 + four(b, at + 4)
}

proof fn lemma_two(b: Seq<u8>, at: int)
    requires
        0 <= at,
        at + 2 <= b.len(),
    ensures
        be_val(field(b, at, 2)) == two(b, at),
{
    let f = field(b, at, 2);
    reveal_with_fuel(be_val, 3);
    assert(f.drop_last().drop_last().len() == 0);
    assert(f.drop_last().last() == f[0]);
}

proof fn lemma_four(b: Seq<u8>, at: int)
    requires
        0 <= at,
        at + 4 <= b.len(),
    ensures
        be_val(field(b, at, 4)) == four(b, at),
{
    let f = field(b, at, 4);
    reveal_with_fuel(be_val, 3);
    assert(f.last() == f[3]);
    assert(f.drop_last().last() == f[2]);
    assert(f.drop_last().drop_last() =~= field(b, at, 2));
    lemma_two(b, at);
}

proof fn lemma_eight(b: Seq<u8>, at: int)
    requires
        0 <= at,
        at + 8 <= b.len(),
    ensures
        be_val(field(b, at, 8)) == eight(b, at),
{
    let f = field(b, at, 8);
    reveal_with_fuel(be_val, 5);
    assert(f.last() == f[7]);
    assert(f.drop_last().last() == f[6]);
    assert(f.drop_last().drop_last().last() == f[5]);
    assert(f.drop_last().drop_last().drop_last().last() == f[4]);
    assert(f.drop_last().drop_last().drop_last().drop_last() =~= field(b, at, 4));
    lemma_four(b, at);
}

/// The footer names six sections in sixteen bytes each, offset and length; then stand a digest of
/// 32 bytes, the length of the archive, a version and a magic number, most significant byte first.
pub proof fn footer_is_read_in_place(b: Seq<u8>, f: ZarFooter)
    requires
        footer_reads(b, f),
        b.len() == 144,
    ensures
        f.compressed_data.offset == eight(b, 0) && f.compressed_data.size == eight(b, 8),
        f.offset_records.offset == eight(b, 16) && f.offset_records.size == eight(b, 24),
        f.names.offset == eight(b, 32) && f.names.size == eight(b, 40),
        f.file_tree.offset == eight(b, 48) && f.file_tree.size == eight(b, 56),
        f.meta_directory.offset == eight(b, 64) && f.meta_directory.size == eight(b, 72),
        f.meta_data.offset == eight(b, 80) && f.meta_data.size == eight(b, 88),
        f.hash@ == b.subrange(96, 128),
        f.total_size == eight(b, 128),
        f.version == four(b, 136),
        f.magic == four(b, 140),
{
    lemma_eight(b, 0);
    lemma_eight(b, 8);
    lemma_eight(b, 16);
    lemma_eight(b, 24);
    lemma_eight(b, 32);
    lemma_eight(b, 40);
    lemma_eight(b, 48);
    lemma_eight(b, 56);
    lemma_eight(b, 64);
    lemma_eight(b, 72);
    lemma_eight(b, 80);
    lemma_eight(b, 88);
    lemma_eight(b, 128);
    lemma_four(b, 136);
    lemma_four(b, 140);
}

/// Entry `i` of the tree stands in sixteen bytes. With the top bit of the first it is a file: the
/// rest of the first number says where its name stands; then come the low halves of where it
/// stands and of its size, and in the last four bytes 16 more bits of its size and of its place.
/// Any other is a directory: where its name stands, its first child and how many it has.
pub proof fn tree_is_read_in_sixteens(b: Seq<u8>, i: int)
    requires
        0 <= i,
        (i + 1) * 16 <= b.len(),
    ensures
        tree_of_bytes(b).len() == b.len() / 16,
        ({
            let at = 16 * i;
            match tree_of_bytes(b)[i] {
                TreeNodeRaw::File { name_offset, offset, size } => {
                    &&& b[at] >= 0x80
                    &&& name_offset == four(b, at) - 0x8000_0000
                    &&& offset == four(b, at + 4) + two(b, at + 14) * 0x1_0000_0000
                    &&& size == four(b, at + 8) + two(b, at + 12) * 0x1_0000_0000
                },
                TreeNodeRaw::Dir { name_offset, node_start_index, count } => {
                    &&& b[at] < 0x80
                    &&& name_offset == four(b, at)
                    &&& node_start_index == four(b, at + 4)
                    &&& count == four(b, at + 8)
                },
            }
        }),
{
    let e = field(b, i * 16, 16);
    lemma_four(e, 0);
    lemma_four(e, 4);
    lemma_four(e, 8);
    lemma_four(e, 12);
    assert(four(e, 12) / 0x1_0000 == two(e, 12));
    assert(four(e, 12) % 0x1_0000 == two(e, 14));
}

/// A name stands behind its length: one byte below 128, or two, the first with the seven low bits
/// and its top bit set. It is read as windows-1252, and refused if it is no safe segment of a path
/// or does not fit the table.
pub proof fn names_are_read_behind_their_lengths(table: Seq<u8>, at: int)
    requires
        0 <= at < table.len(),
    ensures
        table[at] < 128 ==> {
            let to = at + 1 + table[at];
            if to <= table.len() && safe_component(win1252_text(table.subrange(at + 1, to))) {
                name_at(table, at) == Ok::<Seq<char>, ZarReadError>(
                    win1252_text(table.subrange(at + 1, to)),
                )
            } else {
                name_at(table, at) is Err
            }
        },
        table[at] >= 128 && at + 1 < table.len() ==> {
            let to = at + 2 + (table[at] - 128) + 128 * table[at + 1];
            if to <= table.len() && safe_component(win1252_text(table.subrange(at + 2, to))) {
                name_at(table, at) == Ok::<Seq<char>, ZarReadError>(
                    win1252_text(table.subrange(at + 2, to)),
                )
            } else {
                name_at(table, at) is Err
            }
        },
        table[at] >= 128 && at + 1 == table.len() ==> name_at(table, at) is Err,
{
}

/// A record of forty bytes says where its first block stands and, in two bytes for each of
/// sixteen, one less than how long it is kept.
pub proof fn records_are_read_in_forties(b: Seq<u8>, r: int, k: int)
    requires
        0 <= r,
        (r + 1) * 40 <= b.len(),
        0 <= k < 16,
    ensures
        records_of(b).len() == b.len() / 40,
        records_of(b)[r].base == eight(b, 40 * r),
        records_of(b)[r].sizes.len() == 16,
        records_of(b)[r].sizes[k] == two(b, 40 * r + 8 + 2 * k),
{
    let f = field(b, r * 40, 40);
    lemma_eight(f, 0);
    lemma_two(f, 8 + 2 * k);
    assert(records_of(b)[r] == record_of(f));
}

/// Block `k` stands at slot `k % 16` of record `k / 16`: the first at the record's offset, each next
/// behind the one before it. One that is kept at its full 65536 bytes is as it is; any other is a
/// zstd stream that gives 65536 bytes.
pub proof fn blocks_are_read_by_their_records(a: ArchiveModel, bytes: Seq<u8>, k: int)
    requires
        0 <= k < 16 * a.records.len(),
        0 <= a.data_offset,
        a.records[k / 16].base >= 0,
    ensures
        ({
            let rec = a.records[k / 16];
            let at = a.data_offset + rec.block_offset(k % 16);
            let len = rec.sizes[k % 16] + 1;
            let kept = bytes.subrange(at, at + len);
            let r = a.block_of(bytes, k);
            &&& k % 16 == 0 ==> at == a.data_offset + rec.base
            &&& k % 16 > 0 ==> rec.block_offset(k % 16) == rec.block_offset(k % 16 - 1)
                + rec.sizes[k % 16 - 1] + 1
            &&& at + len > bytes.len() ==> r is Err
            &&& at + len <= bytes.len() && len == 65536 ==> r == Ok::<Seq<u8>, ZarReadError>(kept)
            &&& at + len <= bytes.len() && len < 65536 ==> match zstd_decoded(kept) {
                Some(d) => if d.len() == 65536 {
                    r == Ok::<Seq<u8>, ZarReadError>(d)
                } else {
                    r is Err
                },
                None => r is Err,
            }
        }),
{
    let rec = a.records[k / 16];
    lemma_offsets(rec, k % 16);
    let at = a.data_offset + rec.block_offset(k % 16);
    let len = rec.sizes[k % 16] + 1;
    if at + len <= bytes.len() {
        assert(field(bytes, at, len) =~= bytes.subrange(at, at + len));
    }
}

proof fn lemma_offsets(rec: crate::zar::archive::RecordModel, slot: int)
    requires
        0 <= slot,
        rec.base >= 0,
    ensures
        rec.block_offset(slot) >= 0,
    decreases slot,
{
    if slot > 0 {
        lemma_offsets(rec, slot - 1);
    }
}

/// A directory's children are taken in their order: a file is listed under its directory's path
/// and its name, a directory is put behind those that are still to be gone through, and one that
/// was met before is refused.
pub proof fn children_are_taken_in_order(
    names: Seq<u8>,
    entries: Seq<TreeNodeRaw>,
    i: int,
    end: int,
    prefix: Seq<char>,
    w: Walk,
)
    requires
        0 <= i < end,
    ensures
        ({
            let r = visit_children(names, entries, i, end, prefix, w);
            &&& i >= entries.len() ==> r is Err
            &&& i < entries.len() ==> match entries[i] {
                TreeNodeRaw::File { name_offset, offset, size } => match name_at(
                    names,
                    name_offset as int,
                ) {
                    Err(_) => r is Err,
                    Ok(name) => exists|next: Walk|
                        {
                            &&& r == #[trigger] visit_children(
                                names,
                                entries,
                                i + 1,
                                end,
                                prefix,
                                next,
                            )
                            &&& next.queue == w.queue
                            &&& next.visited == w.visited
                            &&& next.files.len() == w.files.len() + 1
                            &&& next.files.drop_last() == w.files
                            &&& next.files.last().path == (if prefix.len() == 0 {
                                name
                            } else {
                                prefix.push('/') + name
                            })
                            &&& next.files.last().offset == offset
                            &&& next.files.last().size == size
                        },
                },
                TreeNodeRaw::Dir { name_offset, .. } => match name_at(names, name_offset as int) {
                    Err(_) => r is Err,
                    Ok(name) => if w.visited.contains(i) {
                        r is Err
                    } else {
                        exists|next: Walk|
                            {
                                &&& r == #[trigger] visit_children(
                                    names,
                                    entries,
                                    i + 1,
                                    end,
                                    prefix,
                                    next,
                                )
                                &&& next.files == w.files
                                &&& next.visited == w.visited.insert(i)
                                &&& next.queue.len() == w.queue.len() + 1
                                &&& next.queue.drop_last() == w.queue
                                &&& next.queue.last().0 == i
                                &&& next.queue.last().1 == (if prefix.len() == 0 {
                                    name
                                } else {
                                    prefix.push('/') + name
                                })
                            }
                    },
                },
            }
        }),
{
    if i < entries.len() {
        match entries[i] {
            TreeNodeRaw::File { name_offset, offset, size } => {
                if let Ok(name) = name_at(names, name_offset as int) {
                    let path = crate::zar::read::child_path(prefix, name);
                    let next = Walk {
                        files: w.files.push(ZarFile { path, offset, size }),
                        ..w
                    };
                    assert(next.files.drop_last() =~= w.files);
                    assert(prefix.push('/') + name =~= prefix + seq!['/'] + name);
                    assert(visit_children(names, entries, i, end, prefix, w) == visit_children(
                        names,
                        entries,
                        i + 1,
                        end,
                        prefix,
                        next,
                    ));
                }
            },
            TreeNodeRaw::Dir { name_offset, .. } => {
                if let Ok(name) = name_at(names, name_offset as int) {
                    if !w.visited.contains(i) {
                        let path = crate::zar::read::child_path(prefix, name);
                        let next = Walk {
                            queue: w.queue.push((i, path)),
                            visited: w.visited.insert(i),
                            ..w
                        };
                        assert(next.queue.drop_last() =~= w.queue);
                        assert(prefix.push('/') + name =~= prefix + seq!['/'] + name);
                        assert(visit_children(names, entries, i, end, prefix, w)
                            == visit_children(names, entries, i + 1, end, prefix, next));
                    }
                }
            },
        }
    }
}

/// The directory that was put first is gone through first: its children from its first one on, as
/// many as it has, under its path.
pub proof fn directories_are_taken_in_order(
    names: Seq<u8>,
    entries: Seq<TreeNodeRaw>,
    w: Walk,
    steps: nat,
)
    requires
        w.queue.len() > 0,
        steps > 0,
    ensures
        entries[w.queue[0].0] matches TreeNodeRaw::Dir { node_start_index, count, .. } ==> {
            let rest = Walk { files: w.files, queue: w.queue.skip(1), visited: w.visited };
            let r = visit_children(
                names,
                entries,
                node_start_index as int,
                node_start_index + count,
                w.queue[0].1,
                rest,
            );
            &&& node_start_index + count > 0xFFFF_FFFF ==> walk_files(names, entries, w, steps) is Err
            &&& node_start_index + count <= 0xFFFF_FFFF && r is Err ==> walk_files(
                names,
                entries,
                w,
                steps,
            ) is Err
            &&& node_start_index + count <= 0xFFFF_FFFF && r is Ok ==> walk_files(
                names,
                entries,
                w,
                steps,
            ) == walk_files(names, entries, r->Ok_0, (steps - 1) as nat)
        },
{
    assert(w.queue.skip(1) =~= w.queue.drop_first());
}

/// A range of a file that can be read is that range of the file's contents, whose length is the
/// file's size.
pub proof fn contents_are_what_is_read<S: ByteSource>(
    rd: ZarArchiveReader<S>,
    k: int,
    offset: int,
    n: int,
)
    requires
        rd.wf(),
        0 <= k < rd.files@.len(),
        0 <= offset,
        0 <= n,
    ensures
        rd.contents().len() == rd.files@.len(),
        rd.paths()[k] == rd.files@[k].0@,
        rd.contents()[k].len() == rd.files@[k].2,
        rd.file_bytes(k, offset, n) matches Ok(v) ==> offset + n <= rd.files@[k].2 && v
            == rd.contents()[k].subrange(offset, offset + n),
        offset + n > rd.files@[k].2 ==> rd.file_bytes(k, offset, n) is Err,
{
    let model = rd.model();
    let bytes = rd.source.bytes();
    assert forall|i: int| 0 <= i < model.records.len() implies (
    #[trigger] model.records[i]).base >= 0 by {
        assert(model.records[i] == rd.offset_records@[i].model());
    }
    if offset + n <= rd.files@[k].2 {
        span_is_bytes(model, bytes, rd.files@[k].1 + offset, n);
        assert(model.bytes_at(bytes, rd.files@[k].1 + offset, n) =~= rd.contents()[k].subrange(
            offset,
            offset + n,
        ));
    }
}

/// A range of an archive's data is read across its blocks, 65536 bytes to each.
pub proof fn spans_are_read_across_blocks(a: ArchiveModel, bytes: Seq<u8>, at: int, n: int, i: int)
    requires
        0 <= a.data_offset,
        0 <= at,
        0 <= i < n,
        forall|r: int| 0 <= r < a.records.len() ==> (#[trigger] a.records[r]).base >= 0,
    ensures
        a.span(bytes, at, n) matches Ok(v) ==> v.len() == n && (a.block_of(
            bytes,
            (at + i) / 65536,
        ) matches Ok(block) ==> v[i] == block[(at + i) % 65536]),
{
    span_is_bytes(a, bytes, at, n);
}

/// An archive is taken if it is longer than a footer, the footer says what it is and how long,
/// each section lies within it, the records and the tree are whole, and the tree can be gone
/// through; and only then. Each refusal names the first of these that does not hold.
pub proof fn fitting_archives_are_taken(bytes: Seq<u8>, f: ZarFooter)
    requires
        bytes.len() <= usize::MAX,
    ensures
        ({
            let r = archive_of(bytes, f);
            let n = bytes.len();
            let long = n > 144;
            let sized = f.total_size == n;
            let within = f.compressed_data.offset + f.compressed_data.size <= n
                && f.offset_records.offset + f.offset_records.size <= n && f.names.offset
                + f.names.size <= n && f.file_tree.offset + f.file_tree.size <= n;
            let known = f.magic == 0x169F_52D6 && f.version == 0x61BF_3A01;
            let records = f.offset_records.size % 40 == 0;
            let tree = f.file_tree.size % 16 == 0;
            let names = bytes.subrange(
                f.names.offset as int,
                f.names.offset + f.names.size,
            );
            let entries = bytes.subrange(
                f.file_tree.offset as int,
                f.file_tree.offset + f.file_tree.size,
            );
            &&& r is Ok <==> long && known && sized && within && records && tree && tree_files(
                names,
                tree_of_bytes(entries),
            ) is Ok
            &&& r is Ok ==> {
                &&& r->Ok_0.data_offset == f.compressed_data.offset
                &&& r->Ok_0.files == tree_files(names, tree_of_bytes(entries))->Ok_0
                &&& r->Ok_0.records == records_of(
                    bytes.subrange(
                        f.offset_records.offset as int,
                        f.offset_records.offset + f.offset_records.size,
                    ),
                )
            }
            &&& !long ==> r == Err::<ArchiveModel, ZarReadError>(ZarReadError::TooSmall)
            &&& long && f.magic != 0x169F_52D6 ==> r == Err::<ArchiveModel, ZarReadError>(
                ZarReadError::BadMagic,
            )
            &&& long && f.magic == 0x169F_52D6 && f.version != 0x61BF_3A01 ==> r == Err::<
                ArchiveModel,
                ZarReadError,
            >(ZarReadError::UnsupportedVersion)
            &&& long && known && !sized ==> r == Err::<ArchiveModel, ZarReadError>(
                ZarReadError::SizeMismatch,
            )
            &&& long && known && sized && !within ==> r == Err::<ArchiveModel, ZarReadError>(
                ZarReadError::SectionOutOfRange,
            )
            &&& long && known && sized && within && !records ==> r == Err::<
                ArchiveModel,
                ZarReadError,
            >(ZarReadError::RaggedOffsetRecords)
            &&& long && known && sized && within && records && !tree ==> r == Err::<
                ArchiveModel,
                ZarReadError,
            >(ZarReadError::RaggedFileTree)
        }),
{
    if f.offset_records.offset + f.offset_records.size <= bytes.len() && f.names.offset
        + f.names.size <= bytes.len() && f.file_tree.offset + f.file_tree.size <= bytes.len() {
        assert(field(bytes, f.names.offset as int, f.names.size as int) =~= bytes.subrange(
            f.names.offset as int,
            f.names.offset + f.names.size,
        ));
        assert(field(bytes, f.file_tree.offset as int, f.file_tree.size as int) =~= bytes.subrange(
            f.file_tree.offset as int,
            f.file_tree.offset + f.file_tree.size,
        ));
        assert(field(bytes, f.offset_records.offset as int, f.offset_records.size as int)
            =~= bytes.subrange(
            f.offset_records.offset as int,
            f.offset_records.offset + f.offset_records.size,
        ));
    }
}

} // verus!
