//! What a session says beforehand of its output is what comes out of it.
use crate::cci::write::CciSession;
use crate::ciso::write::CisoSession;
use crate::extracted::ExtractedSession;
use crate::god::write::{GodHeader, GodSession};
use crate::pieces::{end_to_end, pieces_of};
use crate::session::SessionInner;
use crate::source::{ByteSource, FileSource};
use crate::stfs::write::{StfsWriteError, StfsWriteSession, WritePhase};
use crate::xiso::write::XisoSession;
use crate::zar::write::ZarSession;
use vstd::prelude::*;

verus! {

/// The manifest of a `.cci` session lists every file that comes out, under its name and with the
/// number of bytes that the pieces of that name have together.
pub proof fn cci_manifest_is_what_comes_out<S: ByteSource, F: FileSource>(
    states: Seq<CciSession<S>>,
    sizes: Seq<usize>,
    chunks: Seq<Vec<u8>>,
    end: CciSession<S>,
    last_size: usize,
    m: Seq<(String, u64)>,
    j: int,
)
    requires
        crate::cci::round_trip::is_whole_run(states, sizes, chunks, end, last_size),
        SessionInner::<S, F>::Cci(states[0]).lists(m, 0),
        0 <= j < m.len(),
    ensures
        pieces_of(m[j].0@, crate::cci::round_trip::piece_names(states), chunks).len() == m[j].1,
        m.len() == states[0].parts@.len(),
        forall|i: int|
            0 <= i < chunks.len() ==> exists|k: int|
                0 <= k < m.len() && (#[trigger] m[k]).0@
                    == #[trigger] crate::cci::round_trip::piece_names(states)[i],
{
    let s = states[0];
    let names = crate::cci::round_trip::piece_names(states);
    crate::cci::round_trip::whole_run_is_the_parts(states, sizes, chunks, end, last_size);
    crate::cci::round_trip::lemma_planned_part(s, j);
    assert(m[j].0@ == crate::cci::round_trip::part_name(s, j));
    assert forall|i: int| 0 <= i < chunks.len() implies exists|k: int|
        0 <= k < m.len() && (#[trigger] m[k]).0@ == #[trigger] names[i] by {
        let k = states[i].stream_part as int;
        assert(m[k].0@ == crate::cci::round_trip::part_name(s, k));
    }
}

/// The manifest of a `.cso` session lists every file that comes out, under its name and with the
/// number of bytes that the pieces of that name have together.
pub proof fn ciso_manifest_is_what_comes_out<S: ByteSource, F: FileSource>(
    states: Seq<CisoSession<S>>,
    sizes: Seq<usize>,
    chunks: Seq<Vec<u8>>,
    end: CisoSession<S>,
    last_size: usize,
    m: Seq<(String, u64)>,
    j: int,
)
    requires
        crate::ciso::round_trip::is_whole_run(states, sizes, chunks, end, last_size),
        SessionInner::<S, F>::Ciso(states[0]).lists(m, 0),
        0 <= j < m.len(),
    ensures
        pieces_of(m[j].0@, crate::ciso::round_trip::piece_names(states), chunks).len() == m[j].1,
        m.len() == states[0].parts@.len(),
        forall|i: int|
            0 <= i < chunks.len() ==> exists|k: int|
                0 <= k < m.len() && (#[trigger] m[k]).0@
                    == #[trigger] crate::ciso::round_trip::piece_names(states)[i],
{
    let s = states[0];
    let names = crate::ciso::round_trip::piece_names(states);
    crate::ciso::round_trip::whole_run_is_the_parts(states, sizes, chunks, end, last_size);
    crate::ciso::round_trip::parts_are_padded(s, j);
    assert(s.parts@[j].matches(s.plan@, s.n(), j));
    assert(m[j].0@ == crate::ciso::round_trip::part_name(s, j));
    assert forall|i: int| 0 <= i < chunks.len() implies exists|k: int|
        0 <= k < m.len() && (#[trigger] m[k]).0@ == #[trigger] names[i] by {
        let k = states[i].stream_part as int;
        assert(m[k].0@ == crate::ciso::round_trip::part_name(s, k));
    }
}

/// The manifest of a Games on Demand session lists every part that comes out, under its path and
/// with the number of bytes that the pieces of that path have together, and last the header, under
/// the path that it comes out with.
pub proof fn god_manifest_is_what_comes_out<S: ByteSource, F: FileSource>(
    states: Seq<GodSession<S>>,
    sizes: Seq<usize>,
    chunks: Seq<Vec<u8>>,
    end: GodSession<S>,
    last_size: usize,
    header: GodHeader,
    m: Seq<(String, u64)>,
    header_size: u64,
    j: int,
)
    requires
        crate::god::round_trip::is_whole_run(states, sizes, chunks, end, last_size, header),
        states[0].data_size <= states[0].img().len(),
        SessionInner::<S, F>::God(states[0]).lists(m, header_size),
        0 <= j < m.len() - 1,
    ensures
        pieces_of(m[j].0@, crate::god::round_trip::piece_names(states), chunks).len() == m[j].1,
        m.last().0@ == end.last_entry_name->0@,
        m.last().1 == header_size,
        forall|i: int|
            0 <= i < chunks.len() ==> exists|k: int|
                0 <= k < m.len() - 1 && (#[trigger] m[k]).0@
                    == #[trigger] crate::god::round_trip::piece_names(states)[i],
{
    let s = states[0];
    let names = crate::god::round_trip::piece_names(states);
    crate::god::round_trip::whole_run_is_the_parts(states, sizes, chunks, end, last_size, header);
    crate::god::write::parts_have_their_planned_sizes(s.img(), s.size(), s.n(), j);
    assert(m[j].0@ == crate::god::write::part_path(s.prefix(), j));
    assert forall|i: int| 0 <= i < chunks.len() implies exists|k: int|
        0 <= k < m.len() - 1 && (#[trigger] m[k]).0@ == #[trigger] names[i] by {
        let k = crate::god::round_trip::next_part(states[i]);
        assert(m[k].0@ == crate::god::write::part_path(s.prefix(), k));
    }
}

/// The manifest of a split image lists every part that comes out, under its name and with the
/// number of bytes that the pieces of that name have together.
pub proof fn xiso_manifest_is_what_comes_out<S: ByteSource, F: FileSource>(
    states: Seq<XisoSession<S>>,
    sizes: Seq<usize>,
    chunks: Seq<Vec<u8>>,
    end: XisoSession<S>,
    last_size: usize,
    m: Seq<(String, u64)>,
    j: int,
)
    requires
        crate::xiso::write::is_whole_run(states, sizes, chunks, end, last_size),
        states[0].base() is Some,
        states[0].total() > 0,
        SessionInner::<S, F>::Xiso(states[0]).lists(m, 0),
        0 <= j < m.len(),
    ensures
        pieces_of(Some(m[j].0@), crate::xiso::write::piece_names(states), chunks).len() == m[j].1,
{
    let s = states[0];
    crate::xiso::write::whole_run_is_the_parts(states, sizes, chunks, end, last_size, j);
    assert(m[j].0@ == crate::xiso::format::split_name(s.base()->0, j));
    assert(m[j].1 == crate::xiso::format::part_size(s.total() * 2048, j));
    crate::xiso::write::whole_run_is_the_image(states, sizes, chunks, end, last_size);
}

/// The manifest of a session that streams files lists every file that comes out, under its path
/// and with the number of bytes that the pieces of that path have together.
pub proof fn extracted_manifest_is_what_comes_out<S: ByteSource, F: FileSource>(
    states: Seq<ExtractedSession<F>>,
    sizes: Seq<usize>,
    chunks: Seq<Vec<u8>>,
    end: ExtractedSession<F>,
    last_size: usize,
    m: Seq<(String, u64)>,
    j: int,
)
    requires
        crate::extracted::is_whole_run(states, sizes, chunks, end, last_size),
        forall|a: int, b: int|
            0 <= a < b < states[0].count() ==> #[trigger] states[0].path(a)
                != #[trigger] states[0].path(b),
        SessionInner::<S, F>::Extracted(states[0]).lists(m, 0),
        0 <= j < m.len(),
    ensures
        pieces_of(Some(m[j].0@), crate::extracted::piece_names(states), chunks).len() == m[j].1,
{
    crate::extracted::whole_run_is_the_named_files(states, sizes, chunks, end, last_size, j);
}

/// The manifest of an archive that has come out lists one file, with the number of bytes that all
/// pieces have together.
pub proof fn zar_manifest_is_what_comes_out<S: ByteSource, F: FileSource>(
    states: Seq<ZarSession<F>>,
    sizes: Seq<usize>,
    chunks: Seq<Vec<u8>>,
    end: ZarSession<F>,
    last_size: usize,
    m: Seq<(String, u64)>,
)
    requires
        crate::zar::round_trip::is_whole_run(states, sizes, chunks, end, last_size),
        states[0].handed_out@.len() == 0,
        SessionInner::<S, F>::Zar(end).lists(m, 0),
    ensures
        m.len() == 1,
        m[0].0@ == end.base_name@ + seq!['.', 'z', 'a', 'r'],
        m[0].1 == end_to_end(chunks).len(),
{
    reveal_strlit(".zar");
    assert(".zar"@ =~= seq!['.', 'z', 'a', 'r']);
    crate::zar::round_trip::whole_run_is_the_archive(states, sizes, chunks, end, last_size);
}

/// The manifest of a package lists one file, with the number of bytes that all pieces have
/// together.
pub proof fn stfs_manifest_is_what_comes_out<S: ByteSource, F: FileSource>(
    states: Seq<StfsWriteSession<F>>,
    sizes: Seq<usize>,
    chunks: Seq<Vec<u8>>,
    end: StfsWriteSession<F>,
    last_size: usize,
    m: Seq<(String, u64)>,
)
    requires
        states[0].wf(),
        states[0].hashing_done,
        states[0].phase == WritePhase::Header,
        crate::stfs::round_trip::is_run(states, sizes, chunks),
        crate::stfs::write::chunk_step(
            states.last(),
            end,
            last_size,
            Ok::<Option<Vec<u8>>, StfsWriteError>(None),
        ),
        SessionInner::<S, F>::Stfs(states[0]).lists(m, 0),
    ensures
        m.len() == 1,
        m[0].0@ == states[0].output_name@,
        m[0].1 == end_to_end(chunks).len(),
{
    crate::stfs::round_trip::lemma_whole_run(states, sizes, chunks, end, last_size);
}

/// A session of any kind names its last piece as the session inside it does; archives and packages
/// are one file and name none.
pub proof fn pieces_are_named_by_their_session<S: ByteSource, F: FileSource>(
    god: GodSession<S>,
    xiso: XisoSession<S>,
    extracted: ExtractedSession<F>,
    ciso: CisoSession<S>,
    cci: CciSession<S>,
    zar: ZarSession<F>,
    stfs: StfsWriteSession<F>,
)
    ensures
        SessionInner::<S, F>::God(god).entry_name() is Some <==> god.last_entry_name is Some,
        god.last_entry_name is Some ==> SessionInner::<S, F>::God(god).entry_name() == Some(
            god.last_entry_name->0@,
        ),
        SessionInner::<S, F>::Xiso(xiso).entry_name() == xiso.entry_name(),
        SessionInner::<S, F>::Extracted(extracted).entry_name() == extracted.entry_name(),
        SessionInner::<S, F>::Ciso(ciso).entry_name() == Some(ciso.current_entry_name@),
        SessionInner::<S, F>::Cci(cci).entry_name() == Some(cci.current_entry_name@),
        SessionInner::<S, F>::Zar(zar).entry_name() is None,
        SessionInner::<S, F>::Stfs(stfs).entry_name() is None,
{
}

} // verus!
