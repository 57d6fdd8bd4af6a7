//! What a package that was written is made of, and what it reads back as.
use crate::digest::sha1_of;
use crate::god::read::{sectors_by_size, GodSource};
use crate::god::write::{
    chained_table, chunk_step, decoded_image_is_the_image, part_image, part_path, GodChunk, GodHeader,
    GodSession, GodWriteError,
};
use crate::pieces::{go_through, goes_on, pieces_add_up, pieces_are_in_order, pieces_of};
use crate::source::{image_bytes, ByteSource};
use crate::utils::text::{decimal4, decimal4_tells_apart};
use vstd::prelude::*;

verus! {

/// Session `a` hands out the piece `chunk` of a part and becomes `b`.
pub open spec fn hands_out<S: ByteSource>(
    a: GodSession<S>,
    b: GodSession<S>,
    max_bytes: usize,
    chunk: Vec<u8>,
) -> bool {
    chunk_step(a, b, max_bytes, Ok::<Option<GodChunk>, GodWriteError>(Some(GodChunk::Data(chunk))))
}

/// A session that is hashed and has handed out nothing goes through `states` and hands out
/// `chunks`, one between each two of them; then comes the header, and the session becomes `end`.
pub open spec fn is_whole_run<S: ByteSource>(
    states: Seq<GodSession<S>>,
    sizes: Seq<usize>,
    chunks: Seq<Vec<u8>>,
    end: GodSession<S>,
    last_size: usize,
    header: GodHeader,
) -> bool {
    &&& states.len() == chunks.len() + 1
    &&& sizes.len() == chunks.len()
    &&& states[0].wf()
    &&& states[0].hashing_done
    &&& states[0].current_part_index == 0
    &&& !states[0].part_header_emitted
    &&& forall|i: int|
        0 <= i < chunks.len() ==> #[trigger] hands_out(
            states[i],
            states[i + 1],
            sizes[i],
            chunks[i],
        )
    &&& chunk_step(
        states.last(),
        end,
        last_size,
        Ok::<Option<GodChunk>, GodWriteError>(Some(GodChunk::Header(header))),
    )
}

/// The entry that each piece belongs to, as the session names it after the piece.
pub open spec fn piece_names<S: ByteSource>(states: Seq<GodSession<S>>) -> Seq<Seq<char>> {
    Seq::new((states.len() - 1) as nat, |i: int| states[i + 1].last_entry_name->Some_0@)
}

/// Part `p` of the package that a session writes.
pub open spec fn planned_part<S: ByteSource>(s: GodSession<S>, p: int) -> Seq<u8> {
    part_image(s.img(), s.size(), s.n(), p)
}

/// The part that the next piece belongs to.
pub open spec fn next_part<S: ByteSource>(s: GodSession<S>) -> int {
    if s.part_is_over() {
        s.current_part_index + 1
    } else {
        s.current_part_index as int
    }
}

/// What is there of the part that the next piece belongs to.
spec fn there<S: ByteSource>(s: GodSession<S>) -> Seq<u8> {
    if s.part_is_over() {
        Seq::empty()
    } else {
        s.written@
    }
}

proof fn lemma_run<S: ByteSource>(
    states: Seq<GodSession<S>>,
    sizes: Seq<usize>,
    chunks: Seq<Vec<u8>>,
    k: int,
)
    requires
        states.len() == chunks.len() + 1,
        states[0].wf(),
        states[0].hashing_done,
        forall|i: int|
            0 <= i < chunks.len() ==> #[trigger] hands_out(
                states[i],
                states[i + 1],
                sizes[i],
                chunks[i],
            ),
        0 <= k <= chunks.len(),
    ensures
        states[k].wf(),
        states[k].hashing_done,
        states[k].same_package(&states[0]),
    decreases k,
{
    if k > 0 {
        lemma_run(states, sizes, chunks, k - 1);
        assert(hands_out(states[k - 1], states[k - 1 + 1], sizes[k - 1], chunks[k - 1]));
    }
}

/// The parts of a package have different paths.
pub proof fn part_paths_differ(prefix: Seq<char>, a: int, b: int)
    requires
        0 <= a < b,
    ensures
        part_path(prefix, a) != part_path(prefix, b),
{
    let from = (prefix + ".data/Data"@).len() as int;
    let x = part_path(prefix, a);
    let y = part_path(prefix, b);
    if x == y {
        assert(x.skip(from) =~= decimal4(a as nat));
        assert(y.skip(from) =~= decimal4(b as nat));
        decimal4_tells_apart(a as nat, b as nat);
    }
}

/// The pieces that a session hands out from beginning to end are the parts of the package: those
/// named after a part add up to it, and the parts come in order. Last comes the header, under its
/// own path, and the session is done.
pub proof fn whole_run_is_the_parts<S: ByteSource>(
    states: Seq<GodSession<S>>,
    sizes: Seq<usize>,
    chunks: Seq<Vec<u8>>,
    end: GodSession<S>,
    last_size: usize,
    header: GodHeader,
)
    requires
        is_whole_run(states, sizes, chunks, end, last_size, header),
    ensures
        end.header_emitted,
        end.last_entry_name matches Some(name) && name@ == states[0].prefix(),
        forall|p: int|
            0 <= p < states[0].n() ==> pieces_of(
                #[trigger] part_path(states[0].prefix(), p),
                piece_names(states),
                chunks,
            ) == planned_part(states[0], p),
        forall|i: int|
            0 <= i < chunks.len() ==> 0 <= next_part(#[trigger] states[i]) < states[0].n(),
        forall|i: int|
            0 <= i < chunks.len() ==> #[trigger] piece_names(states)[i] == part_path(
                states[0].prefix(),
                next_part(states[i]),
            ),
        forall|a: int, b: int|
            0 <= a <= b < chunks.len() ==> next_part(#[trigger] states[a]) <= next_part(
                #[trigger] states[b],
            ),
{
    let k = chunks.len() as int;
    let s = states[0];
    let n = s.n() as nat;
    lemma_run(states, sizes, chunks, k);
    assert(states[k] == states.last());
    let entry_names = Seq::new(n, |p: int| part_path(s.prefix(), p));
    let images = Seq::new(n, |p: int| planned_part(s, p));
    let at = Seq::new(states.len(), |i: int| next_part(states[i]));
    let written = Seq::new(states.len(), |i: int| there(states[i]));
    let names = piece_names(states);
    assert forall|a: int, b: int| 0 <= a < b < entry_names.len() implies #[trigger] entry_names[a]
        != #[trigger] entry_names[b] by {
        part_paths_differ(s.prefix(), a, b);
    }
    assert forall|i: int| 0 <= i < k implies #[trigger] goes_on(
        entry_names,
        images,
        at,
        written,
        names,
        chunks,
        i,
    ) by {
        lemma_run(states, sizes, chunks, i);
        assert(hands_out(states[i], states[i + 1], sizes[i], chunks[i]));
        assert(there(states[i]) + chunks[i]@ =~= states[i + 1].written@);
    }
    assert(go_through(entry_names, images, at, written, names, chunks));
    assert forall|p: int| 0 <= p < s.n() implies pieces_of(
        #[trigger] part_path(s.prefix(), p),
        names,
        chunks,
    ) == planned_part(s, p) by {
        pieces_add_up(entry_names, images, at, written, names, chunks, p);
    }
    assert forall|i: int| 0 <= i < k implies 0 <= next_part(#[trigger] states[i]) < s.n()
        && names[i] == part_path(s.prefix(), next_part(states[i])) by {
        assert(goes_on(entry_names, images, at, written, names, chunks, i));
    }
    assert forall|a: int, b: int| 0 <= a <= b < k implies next_part(#[trigger] states[a])
        <= next_part(#[trigger] states[b]) by {
        pieces_are_in_order(entry_names, images, at, written, names, chunks, a, b);
    }
}

/// The header that ends a run is that of the session's package.
pub proof fn lemma_whole_session<S: ByteSource>(
    states: Seq<GodSession<S>>,
    sizes: Seq<usize>,
    chunks: Seq<Vec<u8>>,
    end: GodSession<S>,
    last_size: usize,
    header: GodHeader,
)
    requires
        is_whole_run(states, sizes, chunks, end, last_size, header),
    ensures
        header.block_count == states[0].block_count,
        header.part_count == states[0].part_count,
        header.content_type == states[0].content_type.value(),
        header.execution_info == states[0].exe_info,
        header.device_id == states[0].device_id,
        header.game_title is Some <==> states[0].game_title is Some,
        header.game_title is Some ==> header.game_title->0@ == states[0].game_title->0@,
        states[0].n() > 0 ==> header.mht_hash@ == sha1_of(
            chained_table(states[0].img(), states[0].size(), states[0].n(), 0),
        ),
        states[0].n() > 0 ==> header.parts_size == (states[0].n() - 1) * 0x1000 * 0xa290
            + planned_part(states[0], states[0].n() - 1).len(),
{
    let k = chunks.len() as int;
    lemma_run(states, sizes, chunks, k);
    assert(states[k] == states.last());
}

/// A reader of the parts that a session has handed out of whole blocks, each made of the pieces
/// that were named after it, gives the image.
pub proof fn whole_run_reads_back<S: ByteSource, T: ByteSource>(
    states: Seq<GodSession<S>>,
    sizes: Seq<usize>,
    chunks: Seq<Vec<u8>>,
    end: GodSession<S>,
    last_size: usize,
    header: GodHeader,
    g: GodSource<T>,
)
    requires
        is_whole_run(states, sizes, chunks, end, last_size, header),
        0 < states[0].data_size <= states[0].img().len(),
        states[0].data_size % 0x1000 == 0,
        g.parts@.len() == states[0].n(),
        g.total == sectors_by_size(states[0].n(), g.parts@.last().bytes().len() as int),
        forall|p: int|
            0 <= p < g.parts@.len() ==> (#[trigger] g.parts@[p]).bytes() == pieces_of(
                part_path(states[0].prefix(), p),
                piece_names(states),
                chunks,
            ),
    ensures
        image_bytes(g) == states[0].img().take(states[0].data_size as int),
{
    let s = states[0];
    whole_run_is_the_parts(states, sizes, chunks, end, last_size, header);
    assert forall|p: int| 0 <= p < s.n() implies (#[trigger] g.parts@[p]).bytes() == part_image(
        s.img(),
        s.size(),
        s.n(),
        p,
    ) by {
        assert(pieces_of(part_path(s.prefix(), p), piece_names(states), chunks) == planned_part(
            s,
            p,
        ));
    }
    decoded_image_is_the_image(g, s.img(), s.size(), s.n());
}

} // verus!
