//! Writing an archive block by block.
use crate::bytes::{
    be_bytes, ceil_div, copy_range, put_be, put_slice, put_zeros, write_at, zeroed, zeros,
};
use crate::digest::{absorbed, sha256_finish, sha256_of, sha256_start, sha256_update};
use crate::source::{FileSource, ReadError};
use crate::zar::format::{
    footer_bytes, footer_layout, output_file_name, SectionInfo, Sections, ZarFooter, BLOCK_SIZE,
    FOOTER_HASH_OFFSET, FOOTER_MAGIC, FOOTER_SIZE, FOOTER_VERSION,
};
use crate::zar::layout::{
    build_file_tree, build_name_table, is_breadth_first, is_sorted_tree, name_table,
    name_table_fits, tree_section,
};
use crate::zar::read::zstd_decoded;
use crate::zar::tree::{
    data_before, empty_tree, indices, insert_path, tree_model, tree_of_files, TreeError, TreeModel,
    TreeNode,
};
use vstd::prelude::*;

verus! {

broadcast use crate::bytes::group_fields;

/// What a block compresses to.
pub uninterp spec fn zstd_compressed(data: Seq<u8>) -> Seq<u8>;

/// `ruzstd::encoding::compress_to_vec` at its fastest level: a zstd stream, which begins with a
/// frame header, is a function of the bytes alone and decodes to them.
#[verifier::external_body]
pub(crate) fn zstd_compress(data: &[u8]) -> (r: Vec<u8>)
    requires
        data@.len() == 0x1_0000,
    ensures
        r@ == zstd_compressed(data@),
        r@.len() > 0,
        zstd_decoded(r@) == Some(data@),
{
    ruzstd::encoding::compress_to_vec(data, ruzstd::encoding::CompressionLevel::Fastest)
}

/// The contents of the first `k` files, back to back.
pub open spec fn joined_data(contents: Seq<Seq<u8>>, k: int) -> Seq<u8>
    decreases k,
{
    if k <= 0 {
        Seq::empty()
    } else {
        joined_data(contents, k - 1) + contents[k - 1]
    }
}

/// A block that decodes to itself once it was compressed.
pub open spec fn round_trips(block: Seq<u8>) -> bool {
    zstd_compressed(block).len() > 0 && zstd_decoded(zstd_compressed(block)) == Some(block)
}

/// Block `k` of `d`, the last one padded with zeros.
pub open spec fn raw_block(d: Seq<u8>, k: int) -> Seq<u8> {
    Seq::new(
        0x1_0000,
        |i: int|
            if k * 0x1_0000 + i < d.len() {
                d[k * 0x1_0000 + i]
            } else {
                0
            },
    )
}

/// A block as it is stored: compressed, if that makes it smaller.
pub open spec fn stored_form(block: Seq<u8>) -> Seq<u8> {
    if zstd_compressed(block).len() < 0x1_0000 {
        zstd_compressed(block)
    } else {
        block
    }
}

/// The first `k` blocks of `d`, as they are stored.
pub open spec fn stored_data(d: Seq<u8>, k: int) -> Seq<u8>
    decreases k,
{
    if k <= 0 {
        Seq::empty()
    } else {
        stored_data(d, k - 1) + stored_form(raw_block(d, k - 1))
    }
}

/// How many blocks `d` takes.
pub open spec fn block_count(d: Seq<u8>) -> int {
    ceil_div(d.len() as int, 0x1_0000)
}

/// The stored size of block `k` less one; zero past the last block.
pub open spec fn size_field(d: Seq<u8>, k: int) -> int {
    if k < block_count(d) {
        stored_form(raw_block(d, k)).len() - 1
    } else {
        0
    }
}

/// The first `j` size fields of offset record `r`.
pub open spec fn size_fields(d: Seq<u8>, r: int, j: int) -> Seq<u8>
    decreases j,
{
    if j <= 0 {
        Seq::empty()
    } else {
        size_fields(d, r, j - 1) + be_bytes(size_field(d, r * 16 + j - 1) as nat, 2)
    }
}

/// Offset record `r`: where its first block stands, then sixteen sizes.
pub open spec fn offset_record(d: Seq<u8>, r: int) -> Seq<u8> {
    be_bytes(stored_data(d, r * 16).len(), 8) + size_fields(d, r, 16)
}

/// The first `k` offset records.
pub open spec fn offset_section(d: Seq<u8>, k: int) -> Seq<u8>
    decreases k,
{
    if k <= 0 {
        Seq::empty()
    } else {
        offset_section(d, k - 1) + offset_record(d, k - 1)
    }
}

/// How many offset records `d` takes.
pub open spec fn record_count(d: Seq<u8>) -> int {
    ceil_div(block_count(d), 16)
}

/// How many zeros bring `n` to a multiple of eight.
pub open spec fn pad8(n: int) -> int {
    (8 - n % 8) % 8
}

/// The compressed data and its padding.
pub open spec fn data_part(d: Seq<u8>) -> Seq<u8> {
    let s = stored_data(d, block_count(d));
    s + zeros(pad8(s.len() as int) as nat)
}

/// The archive up to its name table.
pub open spec fn records_part(d: Seq<u8>) -> Seq<u8> {
    data_part(d) + offset_section(d, record_count(d))
}

/// The archive up to its footer.
pub open spec fn body_part(d: Seq<u8>, names: Seq<u8>, tree: Seq<u8>) -> Seq<u8> {
    records_part(d) + names + tree
}

pub open spec fn section(offset: int, size: int) -> SectionInfo {
    SectionInfo { offset: offset as u64, size: size as u64 }
}

/// Where the sections of an archive stand. There is no metadata.
pub open spec fn archive_sections(d: Seq<u8>, names: Seq<u8>, tree: Seq<u8>) -> Sections {
    let data = data_part(d).len() as int;
    let recs = records_part(d).len() as int;
    let end = body_part(d, names, tree).len() as int;
    Sections {
        compressed_data: section(0, stored_data(d, block_count(d)).len() as int),
        offset_records: section(data, recs - data),
        names: section(recs, names.len() as int),
        file_tree: section(recs + names.len(), tree.len() as int),
        meta_directory: section(end, 0),
        meta_data: section(end, 0),
    }
}

/// The footer of an archive, with this digest.
pub open spec fn archive_footer(d: Seq<u8>, names: Seq<u8>, tree: Seq<u8>, hash: Seq<u8>) -> Seq<
    u8,
> {
    footer_layout(
        archive_sections(d, names, tree),
        hash,
        (body_part(d, names, tree).len() + 144) as u64,
        FOOTER_VERSION,
        FOOTER_MAGIC,
    )
}

/// The digest in the footer: of the whole archive with the digest's own field zero.
pub open spec fn archive_hash(d: Seq<u8>, names: Seq<u8>, tree: Seq<u8>) -> Seq<u8> {
    sha256_of(body_part(d, names, tree) + archive_footer(d, names, tree, zeros(32)))
}

/// The archive of the data `d` with this name table and file tree.
pub open spec fn archive_image(d: Seq<u8>, names: Seq<u8>, tree: Seq<u8>) -> Seq<u8> {
    body_part(d, names, tree) + archive_footer(d, names, tree, archive_hash(d, names, tree))
}

/// Why an archive cannot be written.
#[derive(Clone, Copy, Debug, PartialEq, Eq, Structural)]
pub enum ZarWriteError {
    Tree(TreeError),
    /// The length of the archive cannot be counted in 64 bits.
    TooLarge,
    Read(ReadError),
}

impl ZarWriteError {
    pub open spec fn text(self) -> Seq<char> {
        match self {
            ZarWriteError::Tree(TreeError::EmptyPath) => "zar: empty path"@,
            ZarWriteError::Tree(TreeError::DuplicatePath) => "zar: duplicate path"@,
            ZarWriteError::Tree(TreeError::FileAsDirectory) => {
                "zar: path treats a file as a directory"@
            },
            ZarWriteError::Tree(TreeError::TooLarge) => "zar: too large for the format"@,
            ZarWriteError::TooLarge => "zar: too large for the format"@,
            ZarWriteError::Read(_) => "zar: read failed"@,
        }
    }

    pub fn message(&self) -> (r: &'static str)
        ensures
            r@ == self.text(),
    {
        match self {
            ZarWriteError::Tree(TreeError::EmptyPath) => "zar: empty path",
            ZarWriteError::Tree(TreeError::DuplicatePath) => "zar: duplicate path",
            ZarWriteError::Tree(TreeError::FileAsDirectory) => {
                "zar: path treats a file as a directory"
            },
            ZarWriteError::Tree(TreeError::TooLarge) => "zar: too large for the format",
            ZarWriteError::TooLarge => "zar: too large for the format",
            ZarWriteError::Read(_) => "zar: read failed",
        }
    }
}

#[derive(Clone, Copy, Debug, PartialEq, Eq, Structural)]
pub enum Phase {
    /// Compressing file data, block by block.
    Streaming,
    /// Padding the compressed data.
    AlignPad,
    OffsetRecords,
    NameTable,
    FileTree,
    Footer,
    Done,
}

/// One offset record, filled as blocks are stored. The last one may be short.
pub struct OffsetRecord {
    pub base_offset: u64,
    /// Stored size less one, per block.
    pub sizes: Vec<u16>,
}

/// The records of the first `k` blocks.
pub open spec fn records_match(records: Seq<OffsetRecord>, d: Seq<u8>, k: int) -> bool {
    &&& records.len() == ceil_div(k, 16)
    &&& forall|r: int|
        0 <= r < records.len() ==> {
            let rec = #[trigger] records[r];
            &&& rec.base_offset == stored_data(d, r * 16).len()
            &&& rec.sizes@.len() == (if (r + 1) * 16 <= k {
                16
            } else {
                k - r * 16
            })
            &&& forall|j: int|
                0 <= j < rec.sizes@.len() ==> (#[trigger] rec.sizes@[j]) == stored_form(
                    raw_block(d, r * 16 + j),
                ).len() - 1
        }
}

/// Emits an archive in order, in chunks of at most the size asked for.
pub struct ZarSession<F: FileSource> {
    pub source: F,
    /// Size of each file.
    pub sizes: Vec<u64>,
    pub name_table_bytes: Vec<u8>,
    pub file_tree_bytes: Vec<u8>,
    pub total_input_bytes: u64,
    pub base_name: String,
    pub phase: Phase,
    pub current_file: usize,
    pub current_file_pos: u64,
    /// Data waiting for a full block.
    pub block_buffer: Vec<u8>,
    pub total_emitted: u64,
    pub blocks_written: u64,
    pub offset_records: Vec<OffsetRecord>,
    pub hasher: sha2::Sha256,
    pub pending_output: Vec<u8>,
    /// Size of the compressed data, once it is all stored.
    pub compressed_len: u64,
    /// Everything handed out so far.
    pub handed_out: Ghost<Seq<u8>>,
}

/// `r` is what opening a session over these files comes to.
pub open spec fn is_opened<F: FileSource>(
    source: F,
    base_name: String,
    r: Result<ZarSession<F>, ZarWriteError>,
) -> bool {
    match r {
        Ok(s) => {
            &&& s.wf()
            &&& s.source == source
            &&& source.paths().len() == source.contents().len()
            &&& s.base_name == base_name
            &&& s.phase == Phase::Streaming
            &&& s.handed_out@.len() == 0
            &&& s.pending_output@.len() == 0
            &&& is_archive_tree(
                source_list(source),
                s.name_table_bytes@,
                s.file_tree_bytes@,
            )
            &&& forall|k: int| !#[trigger] outgrows(source_list(source), k)
        },
        Err(ZarWriteError::Tree(TreeError::TooLarge)) => exists|k: int|
            #[trigger] outgrows(source_list(source), k),
        Err(ZarWriteError::Tree(e)) => exists|k: int|
            0 <= k <= source.paths().len() && #[trigger] tree_of_files(
                source_list(source),
                k,
            ) == Err::<TreeModel, TreeError>(e),
        Err(_) => false,
    }
}

impl<F: FileSource> ZarSession<F> {
    /// The data of all files, back to back.
    pub open spec fn data(&self) -> Seq<u8> {
        joined_data(self.source.contents(), self.source.contents().len() as int)
    }

    /// The archive this session emits.
    pub open spec fn image(&self) -> Seq<u8> {
        archive_image(self.data(), self.name_table_bytes@, self.file_tree_bytes@)
    }

    /// How much of the data has been read.
    pub open spec fn consumed(&self) -> int {
        joined_data(self.source.contents(), self.current_file as int).len()
            + self.current_file_pos
    }

    /// Everything emitted so far, handed out or pending.
    pub open spec fn emitted(&self) -> Seq<u8> {
        self.handed_out@ + self.pending_output@
    }

    pub open spec fn wf(&self) -> bool {
        let d = self.data();
        let n = block_count(d);
        &&& self.source.valid()
        &&& self.sizes@.len() == self.source.contents().len()
        &&& forall|i: int|
            0 <= i < self.sizes@.len() ==> #[trigger] self.sizes@[i]
                == self.source.contents()[i].len()
        &&& d.len() == self.total_input_bytes
        &&& self.name_table_bytes@.len() <= u32::MAX
        &&& self.file_tree_bytes@.len() <= 0xF_FFFF_FFF0
        &&& self.total_emitted == self.emitted().len()
        &&& self.phase != Phase::Done ==> absorbed(self.hasher) == self.emitted()
        &&& records_match(self.offset_records@, d, self.blocks_written as int)
        &&& forall|k: int|
            0 <= k < self.blocks_written ==> round_trips(#[trigger] raw_block(d, k))
        &&& self.phase == Phase::Streaming ==> {
            &&& self.current_file <= self.sizes@.len()
            &&& self.current_file == self.sizes@.len() ==> self.current_file_pos == 0
            &&& self.current_file < self.sizes@.len() ==> self.current_file_pos
                <= self.sizes@[self.current_file as int]
            &&& self.block_buffer@.len() < 0x1_0000
            &&& self.blocks_written * 0x1_0000 + self.block_buffer@.len() == self.consumed()
            &&& self.block_buffer@ == d.subrange(
                self.blocks_written * 0x1_0000,
                self.consumed(),
            )
            &&& self.emitted() == stored_data(d, self.blocks_written as int)
        }
        &&& self.phase != Phase::Streaming ==> self.blocks_written == n
            && self.block_buffer@.len() == 0
        &&& self.phase != Phase::Streaming && self.phase != Phase::AlignPad ==> self.compressed_len
            == stored_data(d, n).len()
        &&& match self.phase {
            Phase::Streaming => true,
            Phase::AlignPad => self.emitted() == stored_data(d, n),
            Phase::OffsetRecords => self.emitted() == data_part(d),
            Phase::NameTable => self.emitted() == records_part(d),
            Phase::FileTree => self.emitted() == records_part(d) + self.name_table_bytes@,
            Phase::Footer => self.emitted() == body_part(
                d,
                self.name_table_bytes@,
                self.file_tree_bytes@,
            ),
            Phase::Done => self.emitted() == self.image() && archive_hash(
                d,
                self.name_table_bytes@,
                self.file_tree_bytes@,
            ).len() == 32,
        }
    }

    /// The same archive is being made.
    pub open spec fn same_archive(&self, other: &Self) -> bool {
        &&& self.source.contents() == other.source.contents()
        &&& self.source.paths() == other.source.paths()
        &&& self.source.reliable() == other.source.reliable()
        &&& self.sizes == other.sizes
        &&& self.name_table_bytes == other.name_table_bytes
        &&& self.file_tree_bytes == other.file_tree_bytes
        &&& self.total_input_bytes == other.total_input_bytes
        &&& self.base_name == other.base_name
    }
}

/// The data of more files is not shorter.
pub proof fn lemma_joined_grows(contents: Seq<Seq<u8>>, i: int, j: int)
    requires
        0 <= i <= j,
    ensures
        joined_data(contents, i).len() <= joined_data(contents, j).len(),
        joined_data(contents, j).take(joined_data(contents, i).len() as int) == joined_data(
            contents,
            i,
        ),
    decreases j,
{
    let a = joined_data(contents, i);
    if i < j {
        lemma_joined_grows(contents, i, j - 1);
        assert(joined_data(contents, j).take(a.len() as int) =~= joined_data(contents, j - 1).take(
            a.len() as int,
        ));
    } else {
        assert(a.take(a.len() as int) =~= a);
    }
}

/// File `f`'s contents stand in the data after those of the files before it.
pub proof fn file_stands_in_data(contents: Seq<Seq<u8>>, f: int, n: int)
    requires
        0 <= f < n,
        n <= contents.len(),
    ensures
        joined_data(contents, f).len() + contents[f].len() <= joined_data(contents, n).len(),
        joined_data(contents, n).subrange(
            joined_data(contents, f).len() as int,
            (joined_data(contents, f).len() + contents[f].len()) as int,
        ) == contents[f],
{
    lemma_joined_grows(contents, f + 1, n);
    let whole = joined_data(contents, n);
    let upto = joined_data(contents, f + 1);
    let a = joined_data(contents, f).len() as int;
    assert(whole.take(upto.len() as int) == upto);
    assert forall|i: int| 0 <= i < contents[f].len() implies whole[a + i] == contents[f][i] by {
        assert(whole.take(upto.len() as int)[a + i] == upto[a + i]);
    }
    assert(whole.subrange(a, a + contents[f].len()) =~= contents[f]);
}

proof fn lemma_stored_len(d: Seq<u8>, k: int)
    requires
        0 <= k,
    ensures
        stored_data(d, k).len() <= k * 0x1_0000,
    decreases k,
{
    if k > 0 {
        lemma_stored_len(d, k - 1);
    }
}

proof fn lemma_stored_grows(d: Seq<u8>, i: int, j: int)
    requires
        0 <= i <= j,
    ensures
        stored_data(d, i).len() <= stored_data(d, j).len(),
    decreases j,
{
    if i < j {
        lemma_stored_grows(d, i, j - 1);
    }
}

proof fn lemma_offset_len(d: Seq<u8>, k: int)
    requires
        0 <= k,
    ensures
        offset_section(d, k).len() == k * 40,
    decreases k,
{
    if k > 0 {
        lemma_offset_len(d, k - 1);
        lemma_size_fields_len(d, k - 1, 16);
    }
}

proof fn lemma_size_fields_len(d: Seq<u8>, r: int, j: int)
    requires
        0 <= j,
    ensures
        size_fields(d, r, j).len() == 2 * j,
    decreases j,
{
    if j > 0 {
        lemma_size_fields_len(d, r, j - 1);
    }
}

/// Paths and sizes of a file source.
pub open spec fn source_list<F: FileSource>(source: F) -> Seq<(Seq<char>, int)> {
    Seq::new(
        source.paths().len(),
        |i: int| (source.paths()[i], source.contents()[i].len() as int),
    )
}

/// The sizes of the first files together are the length of their data.
pub proof fn lemma_data_before(contents: Seq<Seq<u8>>, list: Seq<(Seq<char>, int)>, k: int)
    requires
        0 <= k <= contents.len(),
        list.len() == contents.len(),
        forall|i: int| 0 <= i < list.len() ==> (#[trigger] list[i]).1 == contents[i].len(),
    ensures
        data_before(list, k) == joined_data(contents, k).len(),
    decreases k,
{
    if k > 0 {
        lemma_data_before(contents, list, k - 1);
        assert(list[k - 1].1 == contents[k - 1].len());
    }
}

/// The files cannot be counted: at file `k` their sizes in 64 bits, or, if `k` is their number,
/// the nodes of their tree or the bytes of its name table in 32.
pub open spec fn outgrows(list: Seq<(Seq<char>, int)>, k: int) -> bool {
    &&& 0 <= k <= list.len()
    &&& if k < list.len() {
        tree_of_files(list, k + 1) is Ok && data_before(list, k + 1) > u64::MAX
    } else {
        tree_of_files(list, k) matches Ok(t) && (t.nodes.len() > u32::MAX || name_table(
            t.names,
            t.names.len() as int,
        ).len() > u32::MAX)
    }
}

/// How long an archive is.
pub open spec fn archive_len(d: Seq<u8>, names: Seq<u8>, tree: Seq<u8>) -> int {
    body_part(d, names, tree).len() as int + 144
}

/// `names` and `tree` are the name table and file tree of these files.
pub open spec fn is_archive_tree(
    list: Seq<(Seq<char>, int)>,
    names: Seq<u8>,
    tree: Seq<u8>,
) -> bool {
    exists|t: TreeModel, u: TreeModel, order: Seq<int>|
        {
            &&& tree_of_files(list, list.len() as int) == Ok::<TreeModel, TreeError>(t)
            &&& #[trigger] is_sorted_tree(t, u)
            &&& #[trigger] is_breadth_first(u, order)
            &&& names == name_table(u.names, u.names.len() as int)
            &&& tree == tree_section(u, order, order.len() as int)
        }
}

/// What a call for the next piece of the output makes of session `a`: session `b` and the
/// result `r`.
pub open spec fn chunk_step<F: FileSource>(
    a: ZarSession<F>,
    b: ZarSession<F>,
    max_bytes: usize,
    r: Result<Option<Vec<u8>>, ZarWriteError>,
) -> bool {
    &&& b.wf()
    &&& b.same_archive(&a)
    &&& match r {
        Ok(Some(c)) => {
            &&& b.handed_out@ == a.handed_out@ + c@
            &&& c@.len() <= max_bytes
            &&& max_bytes > 0 ==> c@.len() > 0
            &&& c@.len() == max_bytes || b.is_finished()
        },
        Ok(None) => {
            &&& b.handed_out == a.handed_out
            &&& max_bytes > 0 ==> b.is_finished()
        },
        Err(e) => {
            &&& b.handed_out == a.handed_out
            &&& match e {
                ZarWriteError::Read(_) => !a.source.reliable(),
                ZarWriteError::TooLarge => a.outlen() > u64::MAX,
                ZarWriteError::Tree(_) => false,
            }
        },
    }
}

impl<F: FileSource> ZarSession<F> {
    /// How long the archive will be.
    pub open spec fn outlen(&self) -> int {
        archive_len(self.data(), self.name_table_bytes@, self.file_tree_bytes@)
    }

    /// Plans the archive of the files in `source`. Files that cannot be counted are refused as too
    /// large.
    pub fn open(source: F, base_name: String) -> (r: Result<ZarSession<F>, ZarWriteError>)
        requires
            source.valid(),
        ensures
            is_opened(source, base_name, r),
    {
        let ghost list = source_list(source);
        let ghost contents = source.contents();
        let entries = source.file_entries();
        let mut nodes: Vec<TreeNode> = Vec::new();
        nodes.push(
            TreeNode {
                is_file: false,
                name_index: 0,
                parent: 0,
                children: Vec::new(),
                file_offset: 0,
                file_size: 0,
            },
        );
        let mut names: Vec<String> = Vec::new();
        let mut running_offset: u64 = 0;
        let mut sizes: Vec<u64> = Vec::new();
        let mut i: usize = 0;
        proof {
            assert(indices(nodes@[0].children@) =~= Seq::empty());
            assert(tree_model(nodes@, names@).nodes =~= empty_tree().nodes);
            assert(tree_model(nodes@, names@).names =~= empty_tree().names);
            crate::zar::tree::tree_holds_the_files(list, 0);
        }
        while i < entries.len()
            invariant
                i <= entries@.len(),
                entries@.len() == list.len(),
                list.len() == contents.len(),
                list == source_list(source),
                contents == source.contents(),
                forall|j: int|
                    0 <= j < entries@.len() ==> (#[trigger] entries@[j]).0@ == list[j].0
                        && entries@[j].1 == list[j].1,
                sizes@.len() == i,
                forall|j: int| 0 <= j < i ==> #[trigger] sizes@[j] == contents[j].len(),
                tree_of_files(list, i as int) == Ok::<TreeModel, TreeError>(
                    tree_model(nodes@, names@),
                ),
                tree_model(nodes@, names@).wf(),
                running_offset == data_before(list, i as int),
                forall|k: int| 0 <= k < i ==> !#[trigger] outgrows(list, k),
            decreases entries@.len() - i,
        {
            assert(list[i as int].0 == entries@[i as int].0@);
            match insert_path(
                &mut nodes,
                &mut names,
                entries[i].0.as_str(),
                entries[i].1,
                &mut running_offset,
            ) {
                Ok(_) => {},
                Err(e) => {
                    assert(e is TooLarge ==> outgrows(list, i as int));
                    assert(e is TooLarge || tree_of_files(list, i + 1) == Err::<
                        TreeModel,
                        TreeError,
                    >(e));
                    return Err(ZarWriteError::Tree(e));
                },
            }
            sizes.push(entries[i].1);
            i = i + 1;
        }
        proof {
            assert forall|j: int| 0 <= j < list.len() implies (#[trigger] list[j]).1
                == contents[j].len() by {
            }
            lemma_data_before(contents, list, contents.len() as int);
        }
        if nodes.len() as u64 > 0xFFFF_FFFF || !name_table_fits(names.as_slice()) {
            assert(outgrows(list, list.len() as int));
            return Err(ZarWriteError::Tree(TreeError::TooLarge));
        }
        let (name_table_bytes, name_offsets) = build_name_table(names.as_slice());
        let ghost t = tree_model(nodes@, names@);
        let file_tree_bytes = build_file_tree(&mut nodes, &names, &name_offsets);
        let ghost u = tree_model(nodes@, names@);
        proof {
            let order = choose|order: Seq<int>|
                #[trigger] is_breadth_first(u, order) && file_tree_bytes@ == tree_section(
                    u,
                    order,
                    order.len() as int,
                );
            assert(is_sorted_tree(t, u) && is_breadth_first(u, order));
            assert(is_archive_tree(list, name_table_bytes@, file_tree_bytes@));
        }
        let s = ZarSession {
            source,
            sizes,
            name_table_bytes,
            file_tree_bytes,
            total_input_bytes: running_offset,
            base_name,
            phase: Phase::Streaming,
            current_file: 0,
            current_file_pos: 0,
            block_buffer: Vec::new(),
            total_emitted: 0,
            blocks_written: 0,
            offset_records: Vec::new(),
            hasher: sha256_start(),
            pending_output: Vec::new(),
            compressed_len: 0,
            handed_out: Ghost(Seq::empty()),
        };
        assert(s.emitted() =~= Seq::empty());
        assert(s.block_buffer@ =~= s.data().subrange(0, 0));
        Ok(s)
    }

    /// Appends to the output, if its length can still be counted.
    fn emit(&mut self, bytes: &[u8]) -> (r: bool)
        requires
            old(self).total_emitted == old(self).emitted().len(),
            absorbed(old(self).hasher) == old(self).emitted(),
        ensures
            r == (old(self).emitted().len() + bytes@.len() <= u64::MAX),
            !r ==> *final(self) == *old(self),
            r ==> final(self).emitted() == old(self).emitted() + bytes@,
            final(self).total_emitted == final(self).emitted().len(),
            absorbed(final(self).hasher) == final(self).emitted(),
            final(self).handed_out == old(self).handed_out,
            *final(self) == (ZarSession {
                hasher: final(self).hasher,
                pending_output: final(self).pending_output,
                total_emitted: final(self).total_emitted,
                ..*old(self)
            }),
    {
        if bytes.len() as u64 > 0xFFFF_FFFF_FFFF_FFFF - self.total_emitted {
            return false;
        }
        sha256_update(&mut self.hasher, bytes);
        put_slice(&mut self.pending_output, bytes);
        self.total_emitted = self.total_emitted + bytes.len() as u64;
        assert(self.emitted() =~= old(self).emitted() + bytes@);
        true
    }

    /// Stores one block and notes its size, if the output can still be counted.
    fn store_block(&mut self, block: &Vec<u8>) -> (r: bool)
        requires
            old(self).phase == Phase::Streaming,
            old(self).source.valid(),
            old(self).data().len() == old(self).total_input_bytes,
            old(self).total_emitted == old(self).emitted().len(),
            absorbed(old(self).hasher) == old(self).emitted(),
            old(self).emitted() == stored_data(old(self).data(), old(self).blocks_written as int),
            records_match(
                old(self).offset_records@,
                old(self).data(),
                old(self).blocks_written as int,
            ),
            old(self).blocks_written * 0x1_0000 < old(self).total_input_bytes,
            block@ == raw_block(old(self).data(), old(self).blocks_written as int),
        ensures
            round_trips(block@),
            r == (stored_data(old(self).data(), old(self).blocks_written + 1).len() <= u64::MAX),
            !r ==> *final(self) == *old(self),
            r ==> final(self).emitted() == stored_data(
                old(self).data(),
                old(self).blocks_written + 1,
            ),
            final(self).total_emitted == final(self).emitted().len(),
            absorbed(final(self).hasher) == final(self).emitted(),
            r ==> records_match(
                final(self).offset_records@,
                old(self).data(),
                old(self).blocks_written + 1,
            ),
            final(self).handed_out == old(self).handed_out,
            r ==> *final(self) == (ZarSession {
                hasher: final(self).hasher,
                pending_output: final(self).pending_output,
                total_emitted: final(self).total_emitted,
                offset_records: final(self).offset_records,
                blocks_written: (old(self).blocks_written + 1) as u64,
                ..*old(self)
            }),
    {
        let ghost d = self.data();
        let ghost k = self.blocks_written as int;
        proof {
            lemma_stored_len(d, k);
        }
        let base: u64 = self.total_emitted;
        let compressed = zstd_compress(block.as_slice());
        let stored_len: usize = if compressed.len() < 0x1_0000 {
            if !self.emit(compressed.as_slice()) {
                return false;
            }
            compressed.len()
        } else {
            if !self.emit(block.as_slice()) {
                return false;
            }
            0x1_0000
        };
        assert(stored_len == stored_form(block@).len());
        let size: u16 = (stored_len - 1) as u16;
        let ghost before = self.offset_records@;
        if self.blocks_written % 16 == 0 {
            let mut sizes: Vec<u16> = Vec::new();
            sizes.push(size);
            self.offset_records.push(OffsetRecord { base_offset: base, sizes });
            proof {
                let r = before.len() as int;
                assert(r * 16 == k);
                assert forall|q: int| 0 <= q < self.offset_records@.len() implies ({
                    let rec = #[trigger] self.offset_records@[q];
                    &&& rec.base_offset == stored_data(d, q * 16).len()
                    &&& rec.sizes@.len() == (if (q + 1) * 16 <= k + 1 {
                        16
                    } else {
                        k + 1 - q * 16
                    })
                    &&& forall|j: int|
                        0 <= j < rec.sizes@.len() ==> (#[trigger] rec.sizes@[j]) == stored_form(
                            raw_block(d, q * 16 + j),
                        ).len() - 1
                }) by {
                    if q < r {
                        assert(self.offset_records@[q] == before[q]);
                    }
                }
            }
        } else {
            let last: usize = self.offset_records.len() - 1;
            self.offset_records[last].sizes.push(size);
            proof {
                assert(last * 16 <= k < (last + 1) * 16);
                assert forall|q: int| 0 <= q < self.offset_records@.len() implies ({
                    let rec = #[trigger] self.offset_records@[q];
                    &&& rec.base_offset == stored_data(d, q * 16).len()
                    &&& rec.sizes@.len() == (if (q + 1) * 16 <= k + 1 {
                        16
                    } else {
                        k + 1 - q * 16
                    })
                    &&& forall|j: int|
                        0 <= j < rec.sizes@.len() ==> (#[trigger] rec.sizes@[j]) == stored_form(
                            raw_block(d, q * 16 + j),
                        ).len() - 1
                }) by {
                    assert(before[q].base_offset == stored_data(d, q * 16).len());
                    if q < last {
                        assert(self.offset_records@[q] == before[q]);
                    } else {
                        assert(before[q].sizes@.len() == k - q * 16);
                    }
                }
            }
        }
        self.blocks_written = self.blocks_written + 1;
        true
    }

    /// How many steps the session is from its end, at most.
    pub open spec fn steps_left(&self) -> int {
        match self.phase {
            Phase::Streaming => 6 + (self.total_input_bytes - self.consumed()) + (self.sizes@.len()
                - self.current_file),
            Phase::AlignPad => 5,
            Phase::OffsetRecords => 4,
            Phase::NameTable => 3,
            Phase::FileTree => 2,
            Phase::Footer => 1,
            Phase::Done => 0,
        }
    }

    /// No more is read than there is.
    proof fn lemma_consumed(&self)
        requires
            self.wf(),
        ensures
            self.phase == Phase::Streaming ==> self.consumed() <= self.total_input_bytes,
            self.steps_left() >= 0,
    {
        if self.phase == Phase::Streaming {
            let contents = self.source.contents();
            lemma_joined_grows(contents, self.current_file as int, contents.len() as int);
            if self.current_file < self.sizes@.len() {
                file_stands_in_data(contents, self.current_file as int, contents.len() as int);
            }
        }
    }

    /// How much the next step reads: what there is room for in the block that is being filled,
    /// as far as the current file has it.
    pub open spec fn next_read(&self) -> int {
        let room = 0x1_0000 - self.block_buffer@.len();
        if self.current_file >= self.sizes@.len() {
            0
        } else {
            let left = self.sizes@[self.current_file as int] - self.current_file_pos;
            if left < room {
                left
            } else {
                room
            }
        }
    }

    /// What one step of reading makes of the session: at most one block's worth is read, of one
    /// file, and a block that is full is stored. Once all files are read, the last block is stored
    /// padded.
    pub open spec fn reads_on(&self, next: &Self) -> bool {
        let flushes = self.current_file >= self.sizes@.len();
        let fills = self.block_buffer@.len() + self.next_read() == 0x1_0000;
        &&& next.blocks_written == self.blocks_written + (if fills || (flushes
            && self.block_buffer@.len() > 0) {
            1int
        } else {
            0
        })
        &&& if flushes {
            next.phase == Phase::AlignPad
        } else {
            &&& next.phase == Phase::Streaming
            &&& next.consumed() == self.consumed() + self.next_read()
            &&& next.current_file == self.current_file + (if self.current_file_pos
                + self.next_read() == self.sizes@[self.current_file as int] {
                1int
            } else {
                0
            })
        }
    }

    /// Nothing but the position in the source differs.
    pub open spec fn stands_still(&self, next: &Self) -> bool {
        *next == (ZarSession { source: next.source, ..*self })
    }

    /// Reads at most one block's worth of data and stores a block once it is full. Once all
    /// files are read, stores the last block padded with zeros.
    fn advance_streaming(&mut self) -> (r: Result<(), ZarWriteError>)
        requires
            old(self).wf(),
            old(self).phase == Phase::Streaming,
        ensures
            final(self).wf(),
            final(self).same_archive(old(self)),
            final(self).handed_out == old(self).handed_out,
            match r {
                Ok(_) => old(self).reads_on(final(self)) && final(self).steps_left() < old(
                    self,
                ).steps_left(),
                Err(e) => {
                    &&& old(self).stands_still(final(self))
                    &&& match e {
                        ZarWriteError::Read(_) => !old(self).source.reliable(),
                        ZarWriteError::TooLarge => old(self).outlen() > u64::MAX,
                        ZarWriteError::Tree(_) => false,
                    }
                },
            },
    {
        let ghost d = self.data();
        let ghost contents = self.source.contents();
        let n: usize = self.sizes.len();
        if self.current_file >= n {
            proof {
                assert(self.consumed() == d.len());
            }
            if self.block_buffer.len() > 0 {
                let used: usize = self.block_buffer.len();
                let mut block = copy_range(self.block_buffer.as_slice(), 0, used);
                put_zeros(&mut block, BLOCK_SIZE - used);
                assert(block@ =~= raw_block(d, self.blocks_written as int));
                if !self.store_block(&block) {
                    proof {
                        lemma_stored_grows(d, self.blocks_written + 1, block_count(d));
                    }
                    return Err(ZarWriteError::TooLarge);
                }
                self.block_buffer = Vec::new();
            }
            self.phase = Phase::AlignPad;
            return Ok(());
        }
        let f: usize = self.current_file;
        let file_size: u64 = self.sizes[f];
        let pos: u64 = self.current_file_pos;
        proof {
            file_stands_in_data(contents, f as int, n as int);
            assert(joined_data(contents, f + 1).len() == joined_data(contents, f as int).len()
                + file_size);
        }
        let remaining: u64 = file_size - pos;
        if remaining == 0 {
            self.current_file = f + 1;
            self.current_file_pos = 0;
            return Ok(());
        }
        let used: usize = self.block_buffer.len();
        let room: usize = BLOCK_SIZE - used;
        let want: usize = if remaining < room as u64 {
            remaining as usize
        } else {
            room
        };
        let piece = match self.source.read_file_range(f, pos, want) {
            Ok(v) => v,
            Err(e) => {
                return Err(ZarWriteError::Read(e));
            },
        };
        let ghost from = self.blocks_written * 0x1_0000;
        let ghost upto = self.consumed() + want;
        let mut buffer = copy_range(self.block_buffer.as_slice(), 0, used);
        put_slice(&mut buffer, piece.as_slice());
        proof {
            let a = joined_data(contents, f as int).len() as int;
            assert forall|i: int| 0 <= i < want implies piece@[i] == d[a + pos + i] by {
                assert(d.subrange(a, a + contents[f as int].len())[pos + i]
                    == contents[f as int][pos + i]);
            }
            assert(buffer@ =~= d.subrange(from, upto));
        }
        if buffer.len() == BLOCK_SIZE {
            assert(buffer@ =~= raw_block(d, self.blocks_written as int));
            if !self.store_block(&buffer) {
                proof {
                    lemma_stored_grows(d, self.blocks_written + 1, block_count(d));
                }
                return Err(ZarWriteError::TooLarge);
            }
            self.block_buffer = Vec::new();
            assert(self.block_buffer@ =~= d.subrange(self.blocks_written * 0x1_0000, upto));
        } else {
            self.block_buffer = buffer;
        }
        if pos + want as u64 >= file_size {
            self.current_file = f + 1;
            self.current_file_pos = 0;
        } else {
            self.current_file_pos = pos + want as u64;
        }
        assert(self.consumed() == upto);
        Ok(())
    }

    /// The offset-record section.
    fn offset_record_bytes(&self) -> (r: Vec<u8>)
        requires
            self.wf(),
            self.phase == Phase::OffsetRecords,
        ensures
            r@ == offset_section(self.data(), record_count(self.data())),
    {
        let ghost d = self.data();
        let ghost k = self.blocks_written as int;
        let mut out: Vec<u8> = Vec::new();
        let mut i: usize = 0;
        while i < self.offset_records.len()
            invariant
                i <= self.offset_records@.len(),
                d == self.data(),
                k == block_count(d),
                k == self.blocks_written,
                records_match(self.offset_records@, d, k),
                out@ == offset_section(d, i as int),
            decreases self.offset_records@.len() - i,
        {
            let rec = &self.offset_records[i];
            let ghost before = out@;
            put_be(&mut out, rec.base_offset, 8);
            let ghost head = out@;
            let mut j: usize = 0;
            assert(head + size_fields(d, i as int, 0) =~= head);
            while j < 16
                invariant
                    j <= 16,
                    i < self.offset_records@.len(),
                    *rec == self.offset_records@[i as int],
                    k == block_count(d),
                    records_match(self.offset_records@, d, k),
                    out@ == head + size_fields(d, i as int, j as int),
                decreases 16 - j,
            {
                let size: u16 = if j < rec.sizes.len() {
                    rec.sizes[j]
                } else {
                    0
                };
                assert(size == size_field(d, i * 16 + j));
                put_be(&mut out, size as u64, 2);
                j = j + 1;
                assert(out@ =~= head + size_fields(d, i as int, j as int));
            }
            assert(out@ =~= before + offset_record(d, i as int));
            i = i + 1;
        }
        out
    }

    /// The footer, its digest filled in.
    fn final_footer(&self) -> (r: Vec<u8>)
        requires
            self.wf(),
            self.phase == Phase::Footer,
            self.total_emitted + 144 <= u64::MAX,
        ensures
            r@ == archive_footer(
                self.data(),
                self.name_table_bytes@,
                self.file_tree_bytes@,
                archive_hash(self.data(), self.name_table_bytes@, self.file_tree_bytes@),
            ),
            r@.len() == 144,
    {
        let ghost d = self.data();
        let ghost names = self.name_table_bytes@;
        let ghost tree = self.file_tree_bytes@;
        proof {
            lemma_stored_len(d, block_count(d));
            lemma_offset_len(d, record_count(d));
        }
        let tree_len: u64 = self.file_tree_bytes.len() as u64;
        let names_len: u64 = self.name_table_bytes.len() as u64;
        let recs_len: u64 = self.offset_records.len() as u64 * 40;
        let end: u64 = self.total_emitted;
        let tree_at: u64 = end - tree_len;
        let names_at: u64 = tree_at - names_len;
        let recs_at: u64 = names_at - recs_len;
        let footer = ZarFooter {
            compressed_data: SectionInfo { offset: 0, size: self.compressed_len },
            offset_records: SectionInfo { offset: recs_at, size: recs_len },
            names: SectionInfo { offset: names_at, size: names_len },
            file_tree: SectionInfo { offset: tree_at, size: tree_len },
            meta_directory: SectionInfo { offset: end, size: 0 },
            meta_data: SectionInfo { offset: end, size: 0 },
            hash: [0u8; 32],
            total_size: end + FOOTER_SIZE as u64,
            version: FOOTER_VERSION,
            magic: FOOTER_MAGIC,
        };
        let mut bytes: Vec<u8> = Vec::new();
        footer.write(&mut bytes);
        proof {
            assert(footer.hash@ =~= zeros(32));
            assert(bytes@ =~= footer_bytes(footer));
            assert(footer.sections() == archive_sections(d, names, tree));
        }
        let hash = sha256_finish(&self.hasher, bytes.as_slice());
        write_at(&mut bytes, FOOTER_HASH_OFFSET, hash.as_slice());
        assert(bytes@ =~= archive_footer(d, names, tree, hash@));
        bytes
    }

    /// Takes one bounded step: at most one block is read and stored, or one section is put out and
    /// the next phase begins.
    fn advance(&mut self) -> (r: Result<(), ZarWriteError>)
        requires
            old(self).wf(),
        ensures
            final(self).wf(),
            final(self).same_archive(old(self)),
            final(self).handed_out == old(self).handed_out,
            old(self).phase == Phase::Done ==> r is Ok && *final(self) == *old(self),
            match r {
                Ok(_) => {
                    &&& final(self).steps_left() < old(self).steps_left() || old(self).phase
                        == Phase::Done
                    &&& match old(self).phase {
                        Phase::Streaming => old(self).reads_on(final(self)),
                        Phase::AlignPad => final(self).phase == Phase::OffsetRecords,
                        Phase::OffsetRecords => final(self).phase == Phase::NameTable,
                        Phase::NameTable => final(self).phase == Phase::FileTree,
                        Phase::FileTree => final(self).phase == Phase::Footer,
                        Phase::Footer | Phase::Done => final(self).phase == Phase::Done,
                    }
                },
                Err(e) => {
                    &&& old(self).stands_still(final(self))
                    &&& match e {
                        ZarWriteError::Read(_) => old(self).phase == Phase::Streaming && !old(
                            self,
                        ).source.reliable(),
                        ZarWriteError::TooLarge => old(self).outlen() > u64::MAX,
                        ZarWriteError::Tree(_) => false,
                    }
                },
            },
    {
        let ghost d = self.data();
        proof {
            lemma_stored_len(d, block_count(d));
            lemma_offset_len(d, record_count(d));
        }
        match self.phase {
            Phase::Streaming => self.advance_streaming(),
            Phase::AlignPad => {
                let stored: u64 = self.total_emitted;
                let pad: usize = ((8 - stored % 8) % 8) as usize;
                let z = zeroed(pad);
                if !self.emit(z.as_slice()) {
                    return Err(ZarWriteError::TooLarge);
                }
                self.compressed_len = stored;
                self.phase = Phase::OffsetRecords;
                Ok(())
            },
            Phase::OffsetRecords => {
                let bytes = self.offset_record_bytes();
                if !self.emit(bytes.as_slice()) {
                    return Err(ZarWriteError::TooLarge);
                }
                self.phase = Phase::NameTable;
                Ok(())
            },
            Phase::NameTable => {
                let bytes = copy_range(
                    self.name_table_bytes.as_slice(),
                    0,
                    self.name_table_bytes.len(),
                );
                assert(bytes@ =~= self.name_table_bytes@);
                if !self.emit(bytes.as_slice()) {
                    return Err(ZarWriteError::TooLarge);
                }
                self.phase = Phase::FileTree;
                Ok(())
            },
            Phase::FileTree => {
                let bytes = copy_range(
                    self.file_tree_bytes.as_slice(),
                    0,
                    self.file_tree_bytes.len(),
                );
                assert(bytes@ =~= self.file_tree_bytes@);
                if !self.emit(bytes.as_slice()) {
                    return Err(ZarWriteError::TooLarge);
                }
                self.phase = Phase::Footer;
                Ok(())
            },
            Phase::Footer => {
                if self.total_emitted > 0xFFFF_FFFF_FFFF_FFFF - 144 {
                    return Err(ZarWriteError::TooLarge);
                }
                let bytes = self.final_footer();
                let ghost before = self.emitted();
                put_slice(&mut self.pending_output, bytes.as_slice());
                self.total_emitted = self.total_emitted + bytes.len() as u64;
                self.phase = Phase::Done;
                assert(self.emitted() =~= before + bytes@);
                Ok(())
            },
            Phase::Done => Ok(()),
        }
    }

    /// The next at most `max_bytes` bytes of the archive; none once all are handed out. What
    /// was handed out is always the start of the archive.
    pub fn next_chunk(&mut self, max_bytes: usize) -> (r: Result<Option<Vec<u8>>, ZarWriteError>)
        requires
            old(self).wf(),
        ensures
            chunk_step(*old(self), *final(self), max_bytes, r),
    {
        while self.pending_output.len() < max_bytes && self.phase != Phase::Done
            invariant
                self.wf(),
                self.same_archive(old(self)),
                self.handed_out == old(self).handed_out,
            decreases self.steps_left(),
        {
            proof {
                self.lemma_consumed();
            }
            if let Err(e) = self.advance() {
                return Err(e);
            }
            proof {
                self.lemma_consumed();
            }
        }
        let have: usize = self.pending_output.len();
        if have == 0 {
            return Ok(None);
        }
        let n: usize = if max_bytes < have {
            max_bytes
        } else {
            have
        };
        let ghost all = self.emitted();
        let ghost pending = self.pending_output@;
        let chunk = copy_range(self.pending_output.as_slice(), 0, n);
        let rest = copy_range(self.pending_output.as_slice(), n, have);
        self.pending_output = rest;
        proof {
            self.handed_out@ = self.handed_out@ + chunk@;
            assert(self.emitted() =~= all);
        }
        Ok(Some(chunk))
    }

    /// Everything has been handed out.
    pub open spec fn is_finished(&self) -> bool {
        self.phase == Phase::Done && self.pending_output@.len() == 0
    }

    pub fn is_done(&self) -> (r: bool)
        ensures
            r == self.is_finished(),
            self.wf() && r ==> self.handed_out@ == self.image(),
    {
        proof {
            if self.is_finished() {
                assert(self.emitted() =~= self.handed_out@);
            }
        }
        self.phase == Phase::Done && self.pending_output.len() == 0
    }

    /// Progress is counted in bytes of input.
    pub fn total_units(&self) -> (r: u64)
        ensures
            r == self.total_input_bytes,
    {
        self.total_input_bytes
    }

    /// How much of the input has been taken in; the padding of the last block is not counted.
    pub fn units_done(&self) -> (r: u64)
        requires
            self.wf(),
        ensures
            self.phase == Phase::Streaming ==> r == self.consumed(),
            self.phase != Phase::Streaming ==> r == self.total_input_bytes,
    {
        proof {
            self.lemma_consumed();
        }
        if self.phase == Phase::Streaming {
            self.blocks_written * 0x1_0000 + self.block_buffer.len() as u64
        } else {
            self.total_input_bytes
        }
    }

    /// None: an archive is one file.
    pub fn current_entry_name(&self) -> (r: Option<&str>)
        ensures
            r is None,
    {
        None
    }

    /// The archive's name and size, once the size is known.
    pub fn output_manifest(&self) -> (r: Vec<(String, u64)>)
        requires
            self.wf(),
        ensures
            self.phase != Phase::Done ==> r@.len() == 0,
            self.phase == Phase::Done ==> {
                &&& r@.len() == 1
                &&& r@[0].0@ == self.base_name@ + ".zar"@
                &&& r@[0].1 == self.image().len()
            },
    {
        let mut r: Vec<(String, u64)> = Vec::new();
        if self.phase == Phase::Done {
            r.push((output_file_name(self.base_name.as_str()), self.total_emitted));
        }
        r
    }
}

} // verus!
