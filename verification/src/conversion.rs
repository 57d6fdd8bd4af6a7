//! Whole conversions: what is opened, prepared, handed out piece by piece and opened again.
use crate::cci::read::{CciError, CciSource};
use crate::cci::write::CciSession;
use crate::ciso::read::{CisoError, CisoSource};
use crate::ciso::write::CisoSession;
use crate::extracted::ExtractedSession;
use crate::god::read::{GodReadError, GodSource};
use crate::god::write::{GodHeader, GodSession, GodWriteError};
use crate::pieces::{end_to_end, pieces_of};
use crate::source::{image_bytes, ByteSource, FileSource};
use crate::stfs::format::ContentType;
use crate::stfs::header::TitleExecutionInfo;
use crate::stfs::listing::StfsReadError;
use crate::stfs::read::StfsReader;
use crate::stfs::write::{
    IdentityOverrides, SourceHeader, StfsWriteError, StfsWriteSession, TitleInfo,
};
use crate::utils::paths::{components, joined};
use crate::zar::archive::ZarArchiveReader;
use crate::zar::read::ZarReadError;
use crate::zar::write::{ZarSession, ZarWriteError};
use vstd::prelude::*;

verus! {

/// An image that was opened, sized and handed out as `.cci` parts is, opened again from those
/// parts, the image: as many sectors of it as were asked for.
pub proof fn cci_conversion_reads_back<S: ByteSource, T: ByteSource>(
    source: S,
    n: u64,
    base: String,
    sizing: Seq<CciSession<S>>,
    states: Seq<CciSession<S>>,
    sizes: Seq<usize>,
    chunks: Seq<Vec<u8>>,
    end: CciSession<S>,
    last_size: usize,
    parts: Vec<T>,
    c: CciSource<T>,
)
    requires
        sizing.len() > 0,
        crate::cci::write::is_opened(source, n, base, sizing[0]),
        crate::cci::round_trip::is_sizing(sizing),
        crate::cci::round_trip::is_whole_run(states, sizes, chunks, end, last_size),
        states[0] == sizing.last(),
        parts@.len() == states[0].parts@.len(),
        forall|j: int|
            0 <= j < parts@.len() ==> (#[trigger] parts@[j]).bytes() == pieces_of(
                crate::cci::format::output_name(base@, j, parts@.len() as int),
                crate::cci::round_trip::piece_names(states),
                chunks,
            ),
        crate::cci::read::is_opened(parts, Ok::<CciSource<T>, CciError>(c)),
    ensures
        image_bytes(c) == source.bytes().take(n * 2048),
{
    crate::cci::round_trip::sizing_ends_at_the_start(sizing);
    assert forall|j: int| 0 <= j < c.files@.len() implies (
    #[trigger] c.files@[j]).source.bytes() == pieces_of(
        crate::cci::round_trip::part_name(states[0], j),
        crate::cci::round_trip::piece_names(states),
        chunks,
    ) by {
        assert(parts@[j].bytes() == c.files@[j].source.bytes());
    }
    crate::cci::round_trip::whole_run_reads_back(states, sizes, chunks, end, last_size, c);
}

/// Of an image that was opened, sized and handed out as `.cso` parts a sector is, opened again
/// from those parts, what it was, wherever its entry and the next stand in the same part.
pub proof fn ciso_conversion_reads_back<S: ByteSource, T: ByteSource>(
    source: S,
    n: u64,
    base: String,
    sizing: Seq<CisoSession<S>>,
    states: Seq<CisoSession<S>>,
    sizes: Seq<usize>,
    chunks: Seq<Vec<u8>>,
    end: CisoSession<S>,
    last_size: usize,
    parts: Vec<T>,
    c: CisoSource<T>,
    j: int,
    k: int,
)
    requires
        sizing.len() > 0,
        crate::ciso::write::is_opened(source, n, base, sizing[0]),
        crate::ciso::round_trip::is_sizing(sizing),
        crate::ciso::round_trip::is_whole_run(states, sizes, chunks, end, last_size),
        states[0] == sizing.last(),
        24 + 4 * (n + 1) < 0xFFBF_6000,
        parts@.len() == states[0].parts@.len(),
        forall|i: int|
            0 <= i < parts@.len() ==> (#[trigger] parts@[i]).bytes() == pieces_of(
                crate::ciso::format::output_name(base@, i, parts@.len() as int),
                crate::ciso::round_trip::piece_names(states),
                chunks,
            ),
        crate::ciso::read::is_opened(parts, Ok::<CisoSource<T>, CisoError>(c)),
        0 <= j < states[0].parts@.len(),
        states[0].parts@[j].first_sector <= k,
        k + 1 < states[0].parts@[j].end_sector,
    ensures
        c.index_table@.len() == n + 1,
        c.image_sector(k) == Ok::<Seq<u8>, CisoError>(
            source.bytes().subrange(k * 2048, k * 2048 + 2048),
        ),
{
    let s = states[0];
    crate::ciso::round_trip::sizing_ends_at_the_start(sizing);
    crate::ciso::round_trip::whole_run_is_the_parts(states, sizes, chunks, end, last_size);
    crate::ciso::round_trip::lemma_is_written(s);
    crate::ciso::round_trip::parts_are_padded(s, 0);
    assert(crate::ciso::round_trip::part_name(s, 0) == crate::ciso::format::output_name(
        base@,
        0,
        parts@.len() as int,
    ));
    assert(parts@[0].bytes() == crate::ciso::round_trip::planned_part(s, 0));
    assert((n + 1) * 4 <= usize::MAX);
    crate::ciso::round_trip::head_reads_back(s.img(), s.n(), s.parts@, s.index_table@);
    assert forall|i: int| 0 <= i < c.parts@.len() implies (#[trigger] c.parts@[i]).bytes()
        == pieces_of(
        crate::ciso::round_trip::part_name(s, i),
        crate::ciso::round_trip::piece_names(states),
        chunks,
    ) by {
        assert(parts@[i].bytes() == c.parts@[i].bytes());
    }
    crate::ciso::round_trip::whole_run_reads_back(
        states,
        sizes,
        chunks,
        end,
        last_size,
        c,
        j,
        k,
    );
}

/// One call of `hash_next_part` after another makes `hashing.last()` of a session, which has then
/// hashed everything. No read fails on the way.
pub open spec fn is_god_hashing<S: ByteSource>(hashing: Seq<GodSession<S>>) -> bool {
    &&& hashing.len() > 0
    &&& forall|i: int|
        0 <= i < hashing.len() - 1 ==> #[trigger] crate::god::write::hash_step(
            hashing[i],
            hashing[i + 1],
            Ok::<bool, GodWriteError>(hashing[i + 1].hashing_done),
        )
    &&& hashing.last().hashing_done
}

proof fn lemma_god_hashing<S: ByteSource>(hashing: Seq<GodSession<S>>, k: int)
    requires
        is_god_hashing(hashing),
        0 <= k < hashing.len(),
    ensures
        hashing[k].same_package(&hashing[0]),
    decreases k,
{
    if k > 0 {
        lemma_god_hashing(hashing, k - 1);
        assert(crate::god::write::hash_step(
            hashing[k - 1],
            hashing[k - 1 + 1],
            Ok::<bool, GodWriteError>(hashing[k - 1 + 1].hashing_done),
        ));
    }
}

/// An image of whole blocks that was opened, hashed and handed out as the parts of a Games on
/// Demand package is, opened again from those parts, the image.
pub proof fn god_conversion_reads_back<S: ByteSource, T: ByteSource>(
    source: S,
    data_size: u64,
    info: TitleExecutionInfo,
    content_type: ContentType,
    title: Option<String>,
    signed: bool,
    device: Option<[u8; 20]>,
    hashing: Seq<GodSession<S>>,
    states: Seq<GodSession<S>>,
    sizes: Seq<usize>,
    chunks: Seq<Vec<u8>>,
    end: GodSession<S>,
    last_size: usize,
    header: GodHeader,
    parts: Vec<T>,
    header_source: Option<T>,
    g: GodSource<T>,
)
    requires
        hashing.len() > 0,
        crate::god::write::is_opened(
            source,
            data_size,
            info,
            content_type,
            title,
            signed,
            device,
            Ok::<GodSession<S>, GodWriteError>(hashing[0]),
        ),
        is_god_hashing(hashing),
        crate::god::round_trip::is_whole_run(states, sizes, chunks, end, last_size, header),
        states[0] == hashing.last(),
        0 < data_size <= source.bytes().len(),
        data_size % 0x1000 == 0,
        parts@.len() == header.part_count,
        forall|p: int|
            0 <= p < parts@.len() ==> (#[trigger] parts@[p]).bytes() == pieces_of(
                crate::god::write::part_path(
                    crate::god::write::path_prefix(info, states[0].content_type),
                    p,
                ),
                crate::god::round_trip::piece_names(states),
                chunks,
            ),
        crate::god::read::is_opened(
            parts,
            header_source,
            Ok::<GodSource<T>, GodReadError>(g),
        ),
    ensures
        image_bytes(g) == source.bytes().take(data_size as int),
        header.execution_info == info,
        header.device_id == device,
        header.game_title is Some <==> title is Some,
        header.game_title is Some ==> header.game_title->0@ == title->0@,
        header.content_type == (if signed {
            0x4000
        } else {
            crate::stfs::opening::number_of(content_type)
        }),
{
    lemma_god_hashing(hashing, hashing.len() - 1);
    crate::god::round_trip::lemma_whole_session(states, sizes, chunks, end, last_size, header);
    crate::god::round_trip::whole_run_reads_back(
        states,
        sizes,
        chunks,
        end,
        last_size,
        header,
        g,
    );
}

/// One call of `hash_next_block` after another makes `hashing.last()` of a session, which has then
/// hashed everything. No read fails on the way.
pub open spec fn is_stfs_hashing<F: FileSource>(hashing: Seq<StfsWriteSession<F>>) -> bool {
    &&& hashing.len() > 0
    &&& forall|i: int|
        0 <= i < hashing.len() - 1 ==> #[trigger] crate::stfs::write::hash_step(
            hashing[i],
            hashing[i + 1],
            Ok::<bool, StfsWriteError>(hashing[i + 1].hashing_done),
        )
    &&& hashing.last().hashing_done
}

proof fn lemma_stfs_hashing<F: FileSource>(hashing: Seq<StfsWriteSession<F>>, k: int)
    requires
        is_stfs_hashing(hashing),
        0 <= k < hashing.len(),
        hashing[0].wf(),
    ensures
        hashing[k].wf(),
        hashing[k].same_package(&hashing[0]),
        hashing[k].phase == hashing[0].phase,
    decreases k,
{
    if k > 0 {
        lemma_stfs_hashing(hashing, k - 1);
        assert(crate::stfs::write::hash_step(
            hashing[k - 1],
            hashing[k - 1 + 1],
            Ok::<bool, StfsWriteError>(hashing[k - 1 + 1].hashing_done),
        ));
    }
}

/// Files that were opened, hashed and handed out as a package are, opened again, those files in
/// their order, each under its path and with its contents.
pub proof fn stfs_conversion_reads_back<F: FileSource, T: ByteSource>(
    files: F,
    content_type: Option<ContentType>,
    name: Option<String>,
    title_id: Option<u32>,
    identity: IdentityOverrides,
    signed: bool,
    original: SourceHeader,
    probe: Option<TitleInfo>,
    needs_executable: bool,
    listed_name: Option<String>,
    made: u32,
    hashing: Seq<StfsWriteSession<F>>,
    states: Seq<StfsWriteSession<F>>,
    sizes: Seq<usize>,
    chunks: Seq<Vec<u8>>,
    end: StfsWriteSession<F>,
    last_size: usize,
    package: T,
    rd: StfsReader<T>,
)
    requires
        hashing.len() > 0,
        crate::stfs::write::is_opened(
            files,
            content_type,
            name,
            title_id,
            identity,
            signed,
            original,
            probe,
            needs_executable,
            listed_name,
            made,
            Ok::<StfsWriteSession<F>, StfsWriteError>(hashing[0]),
        ),
        is_stfs_hashing(hashing),
        crate::stfs::round_trip::is_run(states, sizes, chunks),
        crate::stfs::write::chunk_step(
            states.last(),
            end,
            last_size,
            Ok::<Option<Vec<u8>>, StfsWriteError>(None),
        ),
        states[0] == hashing.last(),
        crate::stfs::round_trip::paths_storable(crate::stfs::round_trip::source_list(files)),
        package.bytes() == end_to_end(chunks),
        crate::stfs::read::is_opened(package, Ok::<StfsReader<T>, StfsReadError>(rd)),
    ensures
        rd.paths().len() == files.paths().len(),
        rd.contents() == files.contents(),
        forall|k: int|
            0 <= k < rd.paths().len() ==> #[trigger] rd.paths()[k] == joined(
                components(files.paths()[k]),
            ),
{
    lemma_stfs_hashing(hashing, hashing.len() - 1);
    let has_installer = original.installer_metadata is Some;
    let list = Seq::new(
        files.paths().len(),
        |i: int| (files.paths()[i], files.contents()[i].len() as int),
    );
    assert(crate::stfs::round_trip::source_list(states[0].files) =~= list);
    assert(crate::stfs::round_trip::source_list(files) =~= list);
    assert(crate::stfs::plan::plan_error(list) is None);
    crate::stfs::round_trip::whole_run_reads_back(
        states,
        sizes,
        chunks,
        end,
        last_size,
        has_installer,
        rd,
    );
}

/// Files that were opened and handed out as an archive are, opened again, those files: each of
/// them is there with its contents, and no other.
pub proof fn zar_conversion_reads_back<F: FileSource, T: ByteSource>(
    files: F,
    base: String,
    states: Seq<ZarSession<F>>,
    sizes: Seq<usize>,
    chunks: Seq<Vec<u8>>,
    end: ZarSession<F>,
    last_size: usize,
    archive: T,
    rd: ZarArchiveReader<T>,
    f: int,
)
    requires
        states.len() > 0,
        crate::zar::write::is_opened(files, base, Ok::<ZarSession<F>, ZarWriteError>(states[0])),
        crate::zar::round_trip::is_whole_run(states, sizes, chunks, end, last_size),
        crate::zar::round_trip::makes_readable(states[0]),
        archive.bytes() == end_to_end(chunks),
        crate::zar::archive::is_opened(archive, Ok::<ZarArchiveReader<T>, ZarReadError>(rd)),
        0 <= f < files.paths().len(),
    ensures
        rd.paths().len() == files.paths().len(),
        exists|k: int| #[trigger] crate::zar::round_trip::holds_file(rd, k, files, f),
{
    crate::zar::round_trip::whole_run_reads_back(states, sizes, chunks, end, last_size, rd);
    assert(crate::zar::round_trip::is_held(rd, files, f));
}

/// Files that were opened and streamed one by one come out as they are, each under its path, but
/// for those of the system update where they are left out: no piece is named after one of those.
pub proof fn extraction_gives_the_files<F: FileSource>(
    paths: Seq<Seq<char>>,
    contents: Seq<Seq<u8>>,
    skip: bool,
    states: Seq<ExtractedSession<F>>,
    sizes: Seq<usize>,
    chunks: Seq<Vec<u8>>,
    end: ExtractedSession<F>,
    last_size: usize,
    i: int,
)
    requires
        states.len() > 0,
        crate::extracted::streams_files(states[0], paths, contents, skip),
        crate::extracted::is_whole_run(states, sizes, chunks, end, last_size),
        forall|a: int, b: int|
            0 <= a < b < paths.len() ==> #[trigger] paths[a] != #[trigger] paths[b],
        0 <= i < paths.len(),
        !(skip && crate::extracted::in_system_update(paths[i])),
    ensures
        pieces_of(Some(paths[i]), crate::extracted::piece_names(states), chunks) == contents[i],
{
    let s = states[0];
    let n = paths.len() as int;
    let all = crate::extracted::kept(paths, skip, n);
    crate::extracted::kept_files_are_the_others(paths, skip, n);
    crate::extracted::lemma_kept_range(paths, skip, n);
    assert forall|a: int, b: int| 0 <= a < b < s.count() implies #[trigger] s.path(a)
        != #[trigger] s.path(b) by {
        assert(all[a] < all[b]);
        assert(paths[all[a]] != paths[all[b]]);
    }
    assert(crate::extracted::goes_out(paths, skip, i));
    let k = choose|k: int| 0 <= k < all.len() && all[k] == i;
    assert(s.path(k) == paths[i]);
    crate::extracted::whole_run_is_the_named_files(states, sizes, chunks, end, last_size, k);
}

} // verus!
