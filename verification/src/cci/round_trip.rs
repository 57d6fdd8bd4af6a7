//! What an image that was written reads back as.
use crate::cci::format::{output_name, output_names_differ};
use crate::cci::read::{part_sector, parse_part, sectors_before, CciError, CciSource, PartIndex};
use crate::cci::write::{
    chunk_step, hash_step, holds_on, is_full, lemma_holds_on, lemma_part_holds_on, lemma_parts_end,
    lemma_parts_hold_on, lemma_slots, lemma_start_bound, part_image, part_reads_back, part_start,
    parts_cover, round_trips, sector_at, sized_part, slot_start, slots, CciPart, CciSession,
    CciWriteError,
};
use crate::pieces::{go_through, goes_on, pieces_add_up, pieces_are_in_order, pieces_of};
use crate::source::{image_bytes, ByteSource};
use vstd::prelude::*;

verus! {

/// Parts and sectors of a written image fit together.
pub open spec fn is_written(img: Seq<u8>, n: int, parts: Seq<CciPart>) -> bool {
    &&& 0 <= n
    &&& n * 2048 <= img.len()
    &&& n * 2048 <= u64::MAX
    &&& parts.len() >= 1
    &&& parts_cover(parts, img, n)
    &&& forall|j: int|
        0 <= j < parts.len() ==> 4 * ((#[trigger] parts[j]).sector_count + 1) <= usize::MAX
    &&& forall|k: int| 0 <= k < n ==> round_trips(#[trigger] sector_at(img, k))
}

/// A reader holds the parts of a written image.
pub open spec fn reads_parts<S: ByteSource>(
    c: CciSource<S>,
    img: Seq<u8>,
    parts: Seq<CciPart>,
) -> bool {
    &&& c.wf()
    &&& c.files@.len() == parts.len()
    &&& forall|j: int|
        0 <= j < parts.len() ==> (#[trigger] c.files@[j]).source.bytes() == part_image(
            img,
            parts[j].first_sector as int,
            parts[j].end(),
        )
}

/// Where a part ends, and the next begins.
pub proof fn lemma_part_end(img: Seq<u8>, n: int, parts: Seq<CciPart>, j: int)
    requires
        is_written(img, n, parts),
        0 <= j < parts.len(),
    ensures
        parts[j].end() <= n,
        j < parts.len() - 1 ==> parts[j].end() == parts[j + 1].first_sector,
        j < parts.len() - 1 ==> parts[j].sector_count > 0,
        j == 0 ==> parts[j].first_sector == 0,
    decreases parts.len() - j,
{
    assert(part_start(parts, j) == parts[j].first_sector);
    if j < parts.len() - 1 {
        assert(part_start(parts, j + 1) == parts[j + 1].first_sector);
        lemma_part_end(img, n, parts, j + 1);
        let first = parts[j].first_sector as int;
        assert(is_full(img, first, parts[j].end()));
        if parts[j].sector_count == 0 {
            assert(slots(img, first, first) =~= Seq::empty());
            assert(slot_start(img, first, first) == 32);
        }
    }
}

proof fn lemma_part_reads<S: ByteSource>(
    c: CciSource<S>,
    img: Seq<u8>,
    n: int,
    parts: Seq<CciPart>,
    j: int,
)
    requires
        is_written(img, n, parts),
        reads_parts(c, img, parts),
        0 <= j < parts.len(),
    ensures
        c.files@[j].compressed@.len() == parts[j].sector_count,
        forall|i: int|
            0 <= i < parts[j].sector_count ==> #[trigger] part_sector(
                c.files@[j].source.bytes(),
                PartIndex {
                    positions: c.files@[j].positions@,
                    compressed: c.files@[j].compressed@,
                },
                i,
            ) == Ok::<Seq<u8>, CciError>(sector_at(img, parts[j].first_sector + i)),
{
    lemma_part_end(img, n, parts, j);
    assert(parts[j].matches(img));
    part_reads_back(img, parts[j].first_sector as int, parts[j].end());
    assert(c.files@[j].wf());
    assert(c.files@[j].source.bytes() == part_image(
        img,
        parts[j].first_sector as int,
        parts[j].end(),
    ));
}

proof fn lemma_sectors_before<S: ByteSource>(
    c: CciSource<S>,
    img: Seq<u8>,
    n: int,
    parts: Seq<CciPart>,
    k: int,
)
    requires
        is_written(img, n, parts),
        reads_parts(c, img, parts),
        0 <= k <= parts.len(),
    ensures
        sectors_before(c.files@, k) == part_start(parts, k),
    decreases k,
{
    if k > 0 {
        lemma_sectors_before(c, img, n, parts, k - 1);
        lemma_part_reads(c, img, n, parts, k - 1);
        assert(part_start(parts, k - 1) == parts[k - 1].first_sector);
    }
}

proof fn lemma_part_of<S: ByteSource>(
    c: CciSource<S>,
    img: Seq<u8>,
    n: int,
    parts: Seq<CciPart>,
    j: int,
    s: int,
    k: int,
)
    requires
        is_written(img, n, parts),
        reads_parts(c, img, parts),
        0 <= j < k <= parts.len(),
        parts[j].first_sector <= s < parts[j].end(),
    ensures
        c.part_of(s, k) == j,
    decreases k,
{
    lemma_sectors_before(c, img, n, parts, k - 1);
    assert(part_start(parts, k - 1) == parts[k - 1].first_sector);
    if k - 1 > j {
        lemma_starts_grow(img, n, parts, j, k - 1);
        lemma_part_of(c, img, n, parts, j, s, k - 1);
    }
}

proof fn lemma_starts_grow(img: Seq<u8>, n: int, parts: Seq<CciPart>, i: int, j: int)
    requires
        is_written(img, n, parts),
        0 <= i < j < parts.len(),
    ensures
        parts[i].end() <= parts[j].first_sector,
    decreases j,
{
    lemma_part_end(img, n, parts, j - 1);
    if i < j - 1 {
        lemma_starts_grow(img, n, parts, i, j - 1);
    }
}

/// Every sector lies in a part.
proof fn lemma_part_with(img: Seq<u8>, n: int, parts: Seq<CciPart>, s: int, k: int) -> (j: int)
    requires
        is_written(img, n, parts),
        1 <= k <= parts.len(),
        0 <= s < parts[k - 1].end(),
    ensures
        0 <= j < k,
        parts[j].first_sector <= s < parts[j].end(),
    decreases k,
{
    lemma_part_end(img, n, parts, k - 1);
    if parts[k - 1].first_sector <= s {
        k - 1
    } else {
        lemma_part_end(img, n, parts, k - 2);
        lemma_part_with(img, n, parts, s, k - 1)
    }
}

/// A written image reads back sector by sector, out of whichever part each was stored in, and has
/// as many sectors as went in.
pub proof fn image_reads_back<S: ByteSource>(
    c: CciSource<S>,
    img: Seq<u8>,
    n: int,
    parts: Seq<CciPart>,
)
    requires
        is_written(img, n, parts),
        reads_parts(c, img, parts),
    ensures
        c.total == n,
        forall|s: int|
            0 <= s < n ==> #[trigger] c.image_sector(s) == Ok::<Seq<u8>, CciError>(
                sector_at(img, s),
            ),
{
    let last = parts.len() - 1;
    lemma_sectors_before(c, img, n, parts, parts.len() as int);
    assert(part_start(parts, parts.len() as int) == parts[last].end());
    assert forall|s: int| 0 <= s < n implies #[trigger] c.image_sector(s) == Ok::<
        Seq<u8>,
        CciError,
    >(sector_at(img, s)) by {
        let j = lemma_part_with(img, n, parts, s, parts.len() as int);
        lemma_part_of(c, img, n, parts, j, s, parts.len() as int);
        lemma_sectors_before(c, img, n, parts, j);
        assert(part_start(parts, j) == parts[j].first_sector);
        lemma_part_reads(c, img, n, parts, j);
        let i = s - parts[j].first_sector;
        assert(parts[j].first_sector + i == s);
    }
}

/// A written image, read again as one file, is the image: what is made from the one is what would
/// be made from the other.
pub proof fn decoded_image_is_the_image<S: ByteSource>(
    c: CciSource<S>,
    img: Seq<u8>,
    n: int,
    parts: Seq<CciPart>,
)
    requires
        is_written(img, n, parts),
        reads_parts(c, img, parts),
    ensures
        image_bytes(c) == img.take(n * 2048),
{
    image_reads_back(c, img, n, parts);
    assert forall|i: int| 0 <= i < n * 2048 implies image_bytes(c)[i] == img[i] by {
        assert(c.image_sector(i / 2048) == Ok::<Seq<u8>, CciError>(sector_at(img, i / 2048)));
    }
    assert(image_bytes(c) =~= img.take(n * 2048));
}

/// Session `a` hands out the piece `chunk` and becomes `b`.
pub open spec fn hands_out<S: ByteSource>(
    a: CciSession<S>,
    b: CciSession<S>,
    max_bytes: usize,
    chunk: Vec<u8>,
) -> bool {
    chunk_step(a, b, max_bytes, Ok::<Option<Vec<u8>>, CciWriteError>(Some(chunk)))
}

/// A session at the beginning of its output, as sizing without a failed read leaves it, goes
/// through `states` and hands out `chunks`, one between each two of them; then it has no more.
pub open spec fn is_whole_run<S: ByteSource>(
    states: Seq<CciSession<S>>,
    sizes: Seq<usize>,
    chunks: Seq<Vec<u8>>,
    end: CciSession<S>,
    last_size: usize,
) -> bool {
    &&& states.len() == chunks.len() + 1
    &&& sizes.len() == chunks.len()
    &&& states[0].wf()
    &&& states[0].sizing_done
    &&& states[0].is_clean()
    &&& states[0].stream_part == 0
    &&& states[0].written@.len() == 0
    &&& forall|i: int|
        0 <= i < chunks.len() ==> #[trigger] hands_out(
            states[i],
            states[i + 1],
            sizes[i],
            chunks[i],
        )
    &&& chunk_step(states.last(), end, last_size, Ok::<Option<Vec<u8>>, CciWriteError>(None))
}

/// One call of `hash_next_part` makes `b` of session `a`.
pub open spec fn sizes_on<S: ByteSource>(a: CciSession<S>, b: CciSession<S>) -> bool {
    hash_step(a, b, Ok::<bool, CciWriteError>(b.sizing_done))
}

/// A session is sized step by step, from `sizing[0]` on, until its parts are fixed. No read fails
/// on the way.
pub open spec fn is_sizing<S: ByteSource>(sizing: Seq<CciSession<S>>) -> bool {
    &&& sizing.len() > 0
    &&& sizing[0].wf()
    &&& sizing[0].is_clean()
    &&& !sizing[0].sizing_done
    &&& forall|i: int|
        0 <= i < sizing.len() - 1 ==> #[trigger] sizes_on(sizing[i], sizing[i + 1])
    &&& sizing.last().sizing_done
}

proof fn lemma_sizing<S: ByteSource>(sizing: Seq<CciSession<S>>, k: int)
    requires
        is_sizing(sizing),
        0 <= k < sizing.len(),
    ensures
        sizing[k].wf(),
        sizing[k].is_clean(),
        sizing[k].same_image(&sizing[0]),
        sizing[k].sizing_done ==> sizing[k].stream_part == 0 && sizing[k].written@.len() == 0,
    decreases k,
{
    if k > 0 {
        lemma_sizing(sizing, k - 1);
        let a = sizing[k - 1];
        let b = sizing[k - 1 + 1];
        assert(sizes_on(a, b));
        if !a.sizing_done {
            assert(b.plan@ =~= b.img().take(b.sizing_next_sector * 2048));
        }
    }
}

/// A session that is sized stands at the beginning of the parts of the image it was opened with.
pub proof fn sizing_ends_at_the_start<S: ByteSource>(sizing: Seq<CciSession<S>>)
    requires
        is_sizing(sizing),
    ensures
        sizing.last().wf(),
        sizing.last().is_clean(),
        sizing.last().same_image(&sizing[0]),
        sizing.last().stream_part == 0,
        sizing.last().written@.len() == 0,
{
    lemma_sizing(sizing, sizing.len() - 1);
}

/// The entry that each piece belongs to, as the session names it after the piece.
pub open spec fn piece_names<S: ByteSource>(states: Seq<CciSession<S>>) -> Seq<Seq<char>> {
    Seq::new((states.len() - 1) as nat, |i: int| states[i + 1].current_entry_name@)
}

/// Part `j` of those that a session has planned.
pub open spec fn planned_part<S: ByteSource>(s: CciSession<S>, j: int) -> Seq<u8> {
    part_image(s.img(), s.parts@[j].first_sector as int, s.parts@[j].end())
}

/// The name of part `j` in the manifest of a session.
pub open spec fn part_name<S: ByteSource>(s: CciSession<S>, j: int) -> Seq<char> {
    output_name(s.base_name@, j, s.parts@.len() as int)
}

proof fn lemma_run<S: ByteSource>(
    states: Seq<CciSession<S>>,
    sizes: Seq<usize>,
    chunks: Seq<Vec<u8>>,
    k: int,
)
    requires
        states.len() == chunks.len() + 1,
        states[0].wf(),
        states[0].sizing_done,
        forall|i: int|
            0 <= i < chunks.len() ==> #[trigger] hands_out(
                states[i],
                states[i + 1],
                sizes[i],
                chunks[i],
            ),
        0 <= k <= chunks.len(),
    ensures
        states[k].wf(),
        states[k].sizing_done,
        states[k].same_image(&states[0]),
        states[k].plan == states[0].plan,
        states[k].parts == states[0].parts,
    decreases k,
{
    if k > 0 {
        lemma_run(states, sizes, chunks, k - 1);
        assert(hands_out(states[k - 1], states[k - 1 + 1], sizes[k - 1], chunks[k - 1]));
    }
}

/// The pieces that a session hands out from beginning to end are the parts of its manifest: those
/// named after a part add up to it, whatever sizes were asked for, and the parts come in the order
/// of the manifest. Then the session is done.
pub proof fn whole_run_is_the_parts<S: ByteSource>(
    states: Seq<CciSession<S>>,
    sizes: Seq<usize>,
    chunks: Seq<Vec<u8>>,
    end: CciSession<S>,
    last_size: usize,
)
    requires
        is_whole_run(states, sizes, chunks, end, last_size),
    ensures
        end.sizing_done,
        end.stream_part >= end.parts@.len(),
        end.parts == states[0].parts,
        forall|j: int|
            0 <= j < states[0].parts@.len() ==> pieces_of(
                #[trigger] part_name(states[0], j),
                piece_names(states),
                chunks,
            ) == planned_part(states[0], j),
        forall|i: int|
            0 <= i < chunks.len() ==> (#[trigger] states[i]).stream_part < states[0].parts@.len(),
        forall|i: int|
            0 <= i < chunks.len() ==> #[trigger] piece_names(states)[i] == part_name(
                states[0],
                states[i].stream_part as int,
            ),
        forall|a: int, b: int|
            0 <= a <= b < chunks.len() ==> (#[trigger] states[a]).stream_part <= (
            #[trigger] states[b]).stream_part,
{
    let n = chunks.len() as int;
    let s = states[0];
    let count = s.parts@.len();
    lemma_run(states, sizes, chunks, n);
    assert(states[n] == states.last());
    let entry_names = Seq::new(count, |j: int| part_name(s, j));
    let images = Seq::new(count, |j: int| planned_part(s, j));
    let at = Seq::new(states.len(), |i: int| states[i].stream_part as int);
    let written = Seq::new(states.len(), |i: int| states[i].written@);
    let names = piece_names(states);
    assert forall|a: int, b: int| 0 <= a < b < entry_names.len() implies #[trigger] entry_names[a]
        != #[trigger] entry_names[b] by {
        output_names_differ(s.base_name@, a, b, count as int);
    }
    assert forall|i: int| 0 <= i < n implies #[trigger] goes_on(
        entry_names,
        images,
        at,
        written,
        names,
        chunks,
        i,
    ) by {
        lemma_run(states, sizes, chunks, i);
        assert(hands_out(states[i], states[i + 1], sizes[i], chunks[i]));
        lemma_planned_part(s, states[i].stream_part as int);
    }
    assert(go_through(entry_names, images, at, written, names, chunks));
    assert forall|j: int| 0 <= j < count implies pieces_of(
        #[trigger] part_name(s, j),
        names,
        chunks,
    ) == planned_part(s, j) by {
        pieces_add_up(entry_names, images, at, written, names, chunks, j);
    }
    assert forall|i: int| 0 <= i < chunks.len() implies (#[trigger] states[i]).stream_part
        < s.parts@.len() && names[i] == part_name(s, states[i].stream_part as int) by {
        assert(goes_on(entry_names, images, at, written, names, chunks, i));
    }
    assert forall|a: int, b: int| 0 <= a <= b < n implies (#[trigger] states[a]).stream_part <= (
    #[trigger] states[b]).stream_part by {
        pieces_are_in_order(entry_names, images, at, written, names, chunks, a, b);
    }
}

/// A part that was sized over the image itself is the part of its sectors.
pub proof fn lemma_planned_part<S: ByteSource>(s: CciSession<S>, j: int)
    requires
        s.wf(),
        s.sizing_done,
        s.is_clean(),
        0 <= j < s.parts@.len(),
    ensures
        s.parts@[j].matches(s.img()),
        s.parts@[j].end() <= s.total_data_sectors,
        sized_part(
            s.plan@,
            s.img(),
            s.parts@[j].first_sector as int,
            s.parts@[j].end(),
        ) == planned_part(s, j),
{
    let p = s.parts@[j];
    assert(holds_on(s.plan@, s.img()));
    assert(s.sized() == s.total_data_sectors);
    lemma_parts_end(s.parts@, s.plan@, s.sized(), j);
    assert(p.matches(s.plan@));
    lemma_part_holds_on(s.plan@, s.img(), p.first_sector as int, p.end());
}

/// What a session has planned is a written image.
proof fn lemma_is_written<S: ByteSource>(s: CciSession<S>)
    requires
        s.wf(),
        s.sizing_done,
        s.is_clean(),
    ensures
        is_written(s.img(), s.total_data_sectors as int, s.parts@),
{
    let img = s.img();
    let n = s.total_data_sectors as int;
    assert(holds_on(s.plan@, img));
    assert(s.sized() == n);
    lemma_parts_hold_on(s.parts@, s.plan@, img, n);
    assert forall|j: int| 0 <= j < s.parts@.len() implies 4 * ((
    #[trigger] s.parts@[j]).sector_count + 1) <= usize::MAX by {
        let p = s.parts@[j];
        lemma_planned_part(s, j);
        lemma_start_bound(img, p.first_sector as int, p.end(), n);
        lemma_slots(img, p.first_sector as int, p.end(), n);
    }
    assert forall|k: int| 0 <= k < n implies round_trips(#[trigger] sector_at(img, k)) by {
        lemma_holds_on(s.plan@, img, k, k + 1);
        assert(round_trips(sector_at(s.plan@, k)));
    }
}

/// Each part of a manifest can be read on its own: it parses, and gives its sectors.
pub proof fn each_part_reads_back<S: ByteSource>(s: CciSession<S>, j: int)
    requires
        s.wf(),
        s.sizing_done,
        s.is_clean(),
        0 <= j < s.parts@.len(),
    ensures
        parse_part(planned_part(s, j)) matches Ok(x) && {
            &&& x.compressed.len() == s.parts@[j].sector_count
            &&& forall|i: int|
                0 <= i < s.parts@[j].sector_count ==> #[trigger] part_sector(
                    planned_part(s, j),
                    x,
                    i,
                ) == Ok::<Seq<u8>, CciError>(
                    sector_at(s.img(), s.parts@[j].first_sector + i),
                )
        },
{
    let p = s.parts@[j];
    lemma_is_written(s);
    lemma_planned_part(s, j);
    part_reads_back(s.img(), p.first_sector as int, p.end());
}

/// A reader of the parts that a session has handed out, each made of the pieces that were named
/// after it, gives the image.
pub proof fn whole_run_reads_back<S: ByteSource, T: ByteSource>(
    states: Seq<CciSession<S>>,
    sizes: Seq<usize>,
    chunks: Seq<Vec<u8>>,
    end: CciSession<S>,
    last_size: usize,
    c: CciSource<T>,
)
    requires
        is_whole_run(states, sizes, chunks, end, last_size),
        c.wf(),
        c.files@.len() == states[0].parts@.len(),
        forall|j: int|
            0 <= j < c.files@.len() ==> (#[trigger] c.files@[j]).source.bytes() == pieces_of(
                part_name(states[0], j),
                piece_names(states),
                chunks,
            ),
    ensures
        image_bytes(c) == states[0].img().take(states[0].total_data_sectors * 2048),
{
    let s = states[0];
    whole_run_is_the_parts(states, sizes, chunks, end, last_size);
    lemma_is_written(s);
    assert forall|j: int| 0 <= j < s.parts@.len() implies (#[trigger] c.files@[j]).source.bytes()
        == part_image(s.img(), s.parts@[j].first_sector as int, s.parts@[j].end()) by {
        assert(pieces_of(part_name(s, j), piece_names(states), chunks) == planned_part(s, j));
    }
    decoded_image_is_the_image(c, s.img(), s.total_data_sectors as int, s.parts@);
}

} // verus!
