//! What an image that was written reads back as.
use crate::bytes::field;
use crate::ciso::format::{
    body_decodes, cso_header_bytes, cso_header_round_trips, index_bytes, index_entry_reads_back,
    lemma_index_len, output_name, output_names_differ, part_starts, starts_part, stored, CsoFields,
    IndexTableEntry, FILE_SPLIT_POINT,
};
use crate::ciso::read::{entries_for, parse_first_part, part_of, table_of, CisoError, CisoSource};
use crate::ciso::write::{
    base_of, body, chunk_step, entries_match, entry_of_part, hash_step, holds_on, lemma_body_at,
    lemma_holds_on, lemma_part_ends_at, lemma_parts_end, lemma_parts_hold_on, lemma_positions_grow,
    lemma_stored_short, part_start, parts_cover, placed_in_part, position, sector_at,
    sector_reads_back, CisoPart, CisoSession, CisoWriteError, StreamStage,
};
use crate::pieces::{
    end_to_end, go_through, goes_on, one_mark_is_all, pieces_add_up, pieces_are_in_order, pieces_of,
};
use crate::source::ByteSource;
use vstd::prelude::*;

verus! {

broadcast use crate::bytes::group_fields;

/// Header and index of an image of `n` sectors.
pub open spec fn head_of(n: int, table: Seq<IndexTableEntry>) -> Seq<u8> {
    cso_header_bytes((n * 2048) as u64) + index_bytes(table, n + 1)
}

/// Parts, index and sectors of a written image fit together.
pub open spec fn is_written(
    img: Seq<u8>,
    n: int,
    parts: Seq<CisoPart>,
    table: Seq<IndexTableEntry>,
) -> bool {
    &&& 0 <= n
    &&& n * 2048 <= img.len()
    &&& n * 2048 <= u64::MAX
    &&& base_of(n, 0) < FILE_SPLIT_POINT
    &&& table.len() == n + 1
    &&& parts.len() >= 1
    &&& parts_cover(parts, img, n, n)
    &&& parts.last().first_sector < n || n == 0
    &&& entries_match(table, parts, img)
    &&& table[n].pos() == (parts.last().base + parts.last().data(img).len()) / 4
    &&& forall|k: int| 0 <= k < n ==> body_decodes(#[trigger] sector_at(img, k))
}

/// The first part of a written image gives its size and its index.
pub proof fn head_reads_back(
    img: Seq<u8>,
    n: int,
    parts: Seq<CisoPart>,
    table: Seq<IndexTableEntry>,
)
    requires
        is_written(img, n, parts, table),
        (n + 1) * 4 <= usize::MAX,
    ensures
        parse_first_part(parts[0].image(img, 0, head_of(n, table))) == Ok::<
            (CsoFields, Seq<IndexTableEntry>),
            CisoError,
        >((CsoFields { uncompressed_size: (n * 2048) as u64, block_size: 2048, alignment: 2 }, table)),
{
    let head = head_of(n, table);
    let b = parts[0].image(img, 0, head);
    let size = (n * 2048) as u64;
    cso_header_round_trips(size);
    lemma_index_len(table, n + 1);
    assert(b.take(24) =~= cso_header_bytes(size));
    assert(entries_for(n * 2048) == n + 1);
    assert(field(b, 24, (n + 1) * 4) =~= index_bytes(table, n + 1));
    let read = table_of(index_bytes(table, n + 1), n + 1);
    assert forall|i: int| 0 <= i < n + 1 implies read[i] == table[i] by {
        index_entry_reads_back(table, i, n + 1);
    }
    assert(read =~= table);
}

/// The first sectors of the first `k` parts.
pub open spec fn firsts(parts: Seq<CisoPart>, k: int) -> Seq<u64> {
    Seq::new(k as nat, |j: int| parts[j].first_sector)
}

/// A full part holds a sector, and its last one does not stand at its start.
pub proof fn lemma_full_part(img: Seq<u8>, n: int, parts: Seq<CisoPart>, table: Seq<IndexTableEntry>, j: int)
    requires
        is_written(img, n, parts, table),
        0 <= j < parts.len(),
    ensures
        j < parts.len() - 1 ==> parts[j].first_sector < parts[j].end_sector
            && table[parts[j].end_sector - 1].pos() > 0,
        parts[j].end_sector <= n,
        j == parts.len() - 1 ==> parts[j].end_sector == n,
        j < parts.len() - 1 ==> parts[j + 1].first_sector == parts[j].end_sector,
        j == 0 ==> parts[j].first_sector == 0,
{
    let p = parts[j];
    lemma_parts_end(parts, img, n, n, j);
    let base = p.base as int;
    let first = p.first_sector as int;
    let end = p.end_sector as int;
    assert(p.matches(img, n, j));
    assert(part_start(parts, j) == p.first_sector);
    assert(part_start(parts, parts.len() as int) == n);
    if j < parts.len() - 1 {
        assert(part_start(parts, j + 1) == parts[j + 1].first_sector);
        assert(p.is_full(img));
        assert(base < FILE_SPLIT_POINT);
        if first == end {
            assert(body(img, base, first, end) =~= Seq::empty());
        }
        let k = end - 1;
        lemma_body_at(img, base, first, k, end);
        assert(sector_at(img, k).len() == 2048);
        lemma_stored_short(sector_at(img, k));
        assert(entry_of_part(table, p, img, k));
        assert(position(img, base, first, k) > 4);
    }
}

/// Where the parts of a written image start is found from its index alone.
pub proof fn parts_are_found(
    img: Seq<u8>,
    n: int,
    parts: Seq<CisoPart>,
    table: Seq<IndexTableEntry>,
    j: int,
    k: int,
)
    requires
        is_written(img, n, parts, table),
        0 <= j < parts.len(),
        parts[j].first_sector < k <= parts[j].end_sector,
    ensures
        part_starts(table, k) == firsts(parts, j + 1),
    decreases k,
{
    let p = parts[j];
    let base = p.base as int;
    let first = p.first_sector as int;
    assert(p.matches(img, n, j));
    lemma_full_part(img, n, parts, table, j);
    assert(entry_of_part(table, p, img, k - 1));
    if first < k - 1 {
        parts_are_found(img, n, parts, table, j, k - 1);
        assert(entry_of_part(table, p, img, k - 2));
        lemma_positions_grow(img, base, first, k - 2, k - 1);
        assert(!starts_part(table, k - 1));
    } else if j == 0 {
        assert(firsts(parts, 1) =~= seq![0u64]);
    } else {
        lemma_full_part(img, n, parts, table, j - 1);
        parts_are_found(img, n, parts, table, j - 1, k - 1);
        assert(body(img, base, first, first) =~= Seq::empty());
        assert(table[k - 1].pos() == 0);
        assert(starts_part(table, k - 1));
        assert(firsts(parts, j + 1) =~= firsts(parts, j).push((k - 1) as u64));
    }
}

/// All parts of a written image are found.
pub proof fn all_parts_are_found(
    img: Seq<u8>,
    n: int,
    parts: Seq<CisoPart>,
    table: Seq<IndexTableEntry>,
)
    requires
        is_written(img, n, parts, table),
    ensures
        part_starts(table, n) == firsts(parts, parts.len() as int),
{
    let last = parts.len() - 1;
    lemma_full_part(img, n, parts, table, last);
    if n > 0 {
        parts_are_found(img, n, parts, table, last, n);
    } else {
        if last > 0 {
            lemma_full_part(img, n, parts, table, 0);
        }
        assert(firsts(parts, 1) =~= seq![0u64]);
    }
}

proof fn lemma_firsts_grow(
    img: Seq<u8>,
    n: int,
    parts: Seq<CisoPart>,
    table: Seq<IndexTableEntry>,
    i: int,
    j: int,
)
    requires
        is_written(img, n, parts, table),
        0 <= i < j < parts.len(),
    ensures
        parts[i].end_sector <= parts[j].first_sector,
    decreases j,
{
    lemma_full_part(img, n, parts, table, j - 1);
    if i < j - 1 {
        lemma_firsts_grow(img, n, parts, table, i, j - 1);
        assert(parts[j - 1].matches(img, n, j - 1));
    }
}

proof fn lemma_part_of(
    img: Seq<u8>,
    n: int,
    parts: Seq<CisoPart>,
    table: Seq<IndexTableEntry>,
    j: int,
    s: int,
    k: int,
)
    requires
        is_written(img, n, parts, table),
        0 <= j < k <= parts.len(),
        parts[j].first_sector <= s < parts[j].end_sector,
    ensures
        part_of(firsts(parts, parts.len() as int), s, k) == j,
    decreases k,
{
    if k - 1 > j {
        lemma_firsts_grow(img, n, parts, table, j, k - 1);
        lemma_part_of(img, n, parts, table, j, s, k - 1);
    }
}

/// A reader holds the parts of a written image.
pub open spec fn reads_parts<S: ByteSource>(
    c: CisoSource<S>,
    img: Seq<u8>,
    n: int,
    parts: Seq<CisoPart>,
    table: Seq<IndexTableEntry>,
) -> bool {
    &&& c.wf()
    &&& c.header.alignment == 2
    &&& c.index_table@ == table
    &&& c.parts@.len() == parts.len()
    &&& forall|j: int|
        0 <= j < parts.len() ==> (#[trigger] c.parts@[j]).bytes() == parts[j].image(
            img,
            j,
            head_of(n, table),
        )
}

/// A written image reads back sector by sector, out of the part that each was stored in. The
/// index does not say where the last sector of a part ends that another part follows, and says it
/// only to four bytes of the last sector of all.
pub proof fn image_reads_back<S: ByteSource>(
    c: CisoSource<S>,
    img: Seq<u8>,
    n: int,
    parts: Seq<CisoPart>,
    table: Seq<IndexTableEntry>,
    j: int,
    s: int,
)
    requires
        is_written(img, n, parts, table),
        reads_parts(c, img, n, parts, table),
        0 <= j < parts.len(),
        parts[j].first_sector <= s < parts[j].end_sector,
        s + 1 < parts[j].end_sector || (s + 1 == n && stored(sector_at(img, s)).len() % 4 == 0),
    ensures
        c.image_sector(s) == Ok::<Seq<u8>, CisoError>(sector_at(img, s)),
{
    let p = parts[j];
    let base = p.base as int;
    let first = p.first_sector as int;
    let end = p.end_sector as int;
    let head = head_of(n, table);
    assert(p.matches(img, n, j));
    lemma_full_part(img, n, parts, table, j);
    all_parts_are_found(img, n, parts, table);
    lemma_part_of(img, n, parts, table, j, s, parts.len() as int);
    lemma_index_len(table, n + 1);
    cso_header_round_trips((n * 2048) as u64);
    assert(entry_of_part(table, p, img, s));
    if s + 1 < end {
        assert(entry_of_part(table, p, img, s + 1));
    } else {
        if j < parts.len() - 1 {
            lemma_firsts_grow(img, n, parts, table, j, parts.len() - 1);
        }
        lemma_body_at(img, base, first, s, end);
        let at = position(img, base, first, s);
        assert(at % 4 == 0);
        assert(base + body(img, base, first, end).len() == at + stored(sector_at(img, s)).len());
    }
    assert(body_decodes(sector_at(img, s)));
    assert(c.parts@[j].bytes() == p.image(img, j, head));
    sector_reads_back(img, p, n, j, head, table[s], table[s + 1], s);
}

/// Session `a` hands out the piece `chunk` and becomes `b`.
pub open spec fn hands_out<S: ByteSource>(
    a: CisoSession<S>,
    b: CisoSession<S>,
    max_bytes: usize,
    chunk: Vec<u8>,
) -> bool {
    chunk_step(a, b, max_bytes, Ok::<Option<Vec<u8>>, CisoWriteError>(Some(chunk)))
}

/// A session at the beginning of its output, as sizing without a failed read leaves it, goes
/// through `states` and hands out `chunks`, one between each two of them; then it has no more.
pub open spec fn is_whole_run<S: ByteSource>(
    states: Seq<CisoSession<S>>,
    sizes: Seq<usize>,
    chunks: Seq<Vec<u8>>,
    end: CisoSession<S>,
    last_size: usize,
) -> bool {
    &&& states.len() == chunks.len() + 1
    &&& sizes.len() == chunks.len()
    &&& states[0].wf()
    &&& states[0].sizing_done
    &&& states[0].is_clean()
    &&& states[0].stream_stage == StreamStage::Header
    &&& states[0].written@.len() == 0
    &&& forall|i: int|
        0 <= i < chunks.len() ==> #[trigger] hands_out(
            states[i],
            states[i + 1],
            sizes[i],
            chunks[i],
        )
    &&& chunk_step(states.last(), end, last_size, Ok::<Option<Vec<u8>>, CisoWriteError>(None))
}

/// One call of `hash_next_part` makes `b` of session `a`.
pub open spec fn sizes_on<S: ByteSource>(a: CisoSession<S>, b: CisoSession<S>) -> bool {
    hash_step(a, b, Ok::<bool, CisoWriteError>(b.sizing_done))
}

/// A session is sized step by step, from `sizing[0]` on, until its parts are fixed. No read fails
/// on the way.
pub open spec fn is_sizing<S: ByteSource>(sizing: Seq<CisoSession<S>>) -> bool {
    &&& sizing.len() > 0
    &&& sizing[0].wf()
    &&& sizing[0].is_clean()
    &&& !sizing[0].sizing_done
    &&& forall|i: int|
        0 <= i < sizing.len() - 1 ==> #[trigger] sizes_on(sizing[i], sizing[i + 1])
    &&& sizing.last().sizing_done
}

proof fn lemma_sizing<S: ByteSource>(sizing: Seq<CisoSession<S>>, k: int)
    requires
        is_sizing(sizing),
        0 <= k < sizing.len(),
    ensures
        sizing[k].wf(),
        sizing[k].is_clean(),
        sizing[k].same_image(&sizing[0]),
        sizing[k].sizing_done ==> sizing[k].stream_stage == StreamStage::Header
            && sizing[k].written@.len() == 0,
    decreases k,
{
    if k > 0 {
        lemma_sizing(sizing, k - 1);
        let a = sizing[k - 1];
        let b = sizing[k - 1 + 1];
        assert(sizes_on(a, b));
        if !a.sizing_done {
            assert(b.plan@ =~= b.img().take(b.sizing_next_sector * 2048));
            assert(a.sized() == a.sizing_next_sector);
        }
    }
}

/// A session that is sized stands at the beginning of the parts of the image it was opened with.
pub proof fn sizing_ends_at_the_start<S: ByteSource>(sizing: Seq<CisoSession<S>>)
    requires
        is_sizing(sizing),
    ensures
        sizing.last().wf(),
        sizing.last().is_clean(),
        sizing.last().same_image(&sizing[0]),
        sizing.last().stream_stage == StreamStage::Header,
        sizing.last().written@.len() == 0,
{
    lemma_sizing(sizing, sizing.len() - 1);
}

/// The entry that each piece belongs to, as the session names it after the piece.
pub open spec fn piece_names<S: ByteSource>(states: Seq<CisoSession<S>>) -> Seq<Seq<char>> {
    Seq::new((states.len() - 1) as nat, |i: int| states[i + 1].current_entry_name@)
}

/// Part `j` of those that a session has planned.
pub open spec fn planned_part<S: ByteSource>(s: CisoSession<S>, j: int) -> Seq<u8> {
    s.parts@[j].image(s.img(), j, s.head())
}

/// The name of part `j` in the manifest of a session.
pub open spec fn part_name<S: ByteSource>(s: CisoSession<S>, j: int) -> Seq<char> {
    output_name(s.base_name@, j, s.parts@.len() as int)
}

proof fn lemma_run<S: ByteSource>(
    states: Seq<CisoSession<S>>,
    sizes: Seq<usize>,
    chunks: Seq<Vec<u8>>,
    k: int,
)
    requires
        states.len() == chunks.len() + 1,
        states[0].wf(),
        states[0].sizing_done,
        states[0].is_clean(),
        states[0].stream_stage == StreamStage::Header,
        forall|i: int|
            0 <= i < chunks.len() ==> #[trigger] hands_out(
                states[i],
                states[i + 1],
                sizes[i],
                chunks[i],
            ),
        0 <= k <= chunks.len(),
    ensures
        states[k].wf(),
        states[k].sizing_done,
        states[k].same_image(&states[0]),
        states[k].parts == states[0].parts,
        states[k].index_table == states[0].index_table,
        states[k].plan == states[0].plan,
        states[k].placed == states[0].placed,
        states[k].is_clean(),
        is_at_part(states[k]),
    decreases k,
{
    if k > 0 {
        lemma_run(states, sizes, chunks, k - 1);
        let a = states[k - 1];
        let b = states[k - 1 + 1];
        assert(hands_out(a, b, sizes[k - 1], chunks[k - 1]));
        if a.stream_stage != StreamStage::Done {
            lemma_streamed_part(a);
        }
    } else {
        assert(part_start(states[0].parts@, 0) == 0);
    }
}

/// The session emits the part of its plan that its number says, or is behind the last.
pub open spec fn is_at_part<S: ByteSource>(s: CisoSession<S>) -> bool {
    if s.stream_stage == StreamStage::Done {
        s.stream_part == s.parts@.len()
    } else {
        s.stream_part < s.parts@.len() && s.stream_first@ == part_start(
            s.parts@,
            s.stream_part as int,
        )
    }
}

/// A part that was sized over the image itself is the part of its sectors.
proof fn lemma_planned_part<S: ByteSource>(s: CisoSession<S>, j: int)
    requires
        s.wf(),
        s.sizing_done,
        s.is_clean(),
        0 <= j < s.parts@.len(),
    ensures
        parts_cover(s.parts@, s.img(), s.n(), s.n()),
        s.parts@[j].matches(s.img(), s.n(), j),
        s.parts@[j].end_sector <= s.n(),
        s.parts@[j].end_sector == s.n() <==> j == s.parts@.len() - 1,
        j < s.parts@.len() - 1 ==> s.parts@[j].is_full(s.img()),
{
    let n = s.n();
    let parts = s.parts@;
    assert(holds_on(s.plan@, s.img()));
    assert(s.sized() == n);
    lemma_parts_hold_on(parts, s.plan@, s.img(), n, n);
    lemma_parts_end(parts, s.img(), n, n, j);
    assert(part_start(parts, parts.len() as int) == parts.last().end_sector);
    assert(parts[j].matches(s.img(), n, j));
    if j < parts.len() - 1 {
        assert(parts[j].is_full(s.img()));
        lemma_ends_before(parts, s.img(), n, j, parts.len() - 1);
        if n == 0 {
            assert(body(s.img(), parts[j].base as int, 0, 0) =~= Seq::empty());
        }
    }
}

proof fn lemma_ends_before(parts: Seq<CisoPart>, img: Seq<u8>, n: int, i: int, j: int)
    requires
        parts_cover(parts, img, n, n),
        0 <= i < j < parts.len(),
    ensures
        parts[i].end_sector <= parts[j].first_sector,
    decreases j,
{
    assert(part_start(parts, j) == parts[j].first_sector);
    if i < j - 1 {
        lemma_ends_before(parts, img, n, i, j - 1);
        assert(parts[j - 1].matches(img, n, j - 1));
    }
}

/// What a session without a failed read emits is what it has planned.
proof fn lemma_streamed_part<S: ByteSource>(s: CisoSession<S>)
    requires
        s.wf(),
        s.sizing_done,
        s.is_clean(),
        s.stream_stage != StreamStage::Done,
        is_at_part(s),
    ensures
        s.streamed_end() == s.parts@[s.stream_part as int].end_sector,
        s.streamed_image() == planned_part(s, s.stream_part as int),
        s.streamed_end() == s.n() <==> s.stream_part == s.parts@.len() - 1,
        s.streamed_end() == part_start(s.parts@, s.stream_part + 1),
{
    let j = s.stream_part as int;
    let p = s.parts@[j];
    lemma_planned_part(s, j);
    assert(part_start(s.parts@, j) == p.first_sector);
    lemma_part_ends_at(
        s.img(),
        p.base as int,
        p.first_sector as int,
        p.first_sector as int,
        p.end_sector as int,
        s.n(),
    );
    lemma_index_len(s.index_table@, s.index_table@.len() as int);
    cso_header_round_trips((s.total_data_sectors * 2048) as u64);
    assert(s.streamed_image() =~= planned_part(s, j));
}

/// The pieces that a session hands out from beginning to end are the parts of its manifest: those
/// named after a part add up to it, whatever sizes were asked for, and the parts come in the order
/// of the manifest. Then the session is done.
pub proof fn whole_run_is_the_parts<S: ByteSource>(
    states: Seq<CisoSession<S>>,
    sizes: Seq<usize>,
    chunks: Seq<Vec<u8>>,
    end: CisoSession<S>,
    last_size: usize,
)
    requires
        is_whole_run(states, sizes, chunks, end, last_size),
    ensures
        end.sizing_done,
        end.stream_stage == StreamStage::Done,
        end.parts == states[0].parts,
        forall|j: int|
            0 <= j < states[0].parts@.len() ==> pieces_of(
                #[trigger] part_name(states[0], j),
                piece_names(states),
                chunks,
            ) == planned_part(states[0], j),
        forall|i: int|
            0 <= i < chunks.len() ==> (#[trigger] states[i]).stream_part < states[0].parts@.len(),
        forall|i: int|
            0 <= i < chunks.len() ==> #[trigger] piece_names(states)[i] == part_name(
                states[0],
                states[i].stream_part as int,
            ),
        forall|a: int, b: int|
            0 <= a <= b < chunks.len() ==> (#[trigger] states[a]).stream_part <= (
            #[trigger] states[b]).stream_part,
{
    let n = chunks.len() as int;
    let s = states[0];
    let count = s.parts@.len();
    lemma_run(states, sizes, chunks, n);
    assert(states[n] == states.last());
    let entry_names = Seq::new(count, |j: int| part_name(s, j));
    let images = Seq::new(count, |j: int| planned_part(s, j));
    let at = Seq::new(states.len(), |i: int| states[i].stream_part as int);
    let written = Seq::new(states.len(), |i: int| states[i].written@);
    let names = piece_names(states);
    assert forall|a: int, b: int| 0 <= a < b < entry_names.len() implies #[trigger] entry_names[a]
        != #[trigger] entry_names[b] by {
        output_names_differ(s.base_name@, a, b, count as int);
    }
    assert forall|i: int| 0 <= i < n implies #[trigger] goes_on(
        entry_names,
        images,
        at,
        written,
        names,
        chunks,
        i,
    ) by {
        lemma_run(states, sizes, chunks, i);
        assert(hands_out(states[i], states[i + 1], sizes[i], chunks[i]));
        lemma_streamed_part(states[i]);
        assert(states[i].head() == s.head());
    }
    assert(go_through(entry_names, images, at, written, names, chunks));
    assert forall|j: int| 0 <= j < count implies pieces_of(
        #[trigger] part_name(s, j),
        names,
        chunks,
    ) == planned_part(s, j) by {
        pieces_add_up(entry_names, images, at, written, names, chunks, j);
    }
    assert forall|i: int| 0 <= i < chunks.len() implies (#[trigger] states[i]).stream_part
        < s.parts@.len() && names[i] == part_name(s, states[i].stream_part as int) by {
        assert(goes_on(entry_names, images, at, written, names, chunks, i));
    }
    assert forall|a: int, b: int| 0 <= a <= b < n implies (#[trigger] states[a]).stream_part <= (
    #[trigger] states[b]).stream_part by {
        pieces_are_in_order(entry_names, images, at, written, names, chunks, a, b);
    }
}

/// Each part of a manifest has a size that is a multiple of 1024 and fills it; the first one
/// starts with a header of 24 bytes and an index of four bytes for each sector and for the end.
pub proof fn parts_are_padded<S: ByteSource>(s: CisoSession<S>, j: int)
    requires
        s.wf(),
        s.sizing_done,
        s.is_clean(),
        0 <= j < s.parts@.len(),
    ensures
        planned_part(s, j).len() == s.parts@[j].size,
        s.parts@[j].size % 1024 == 0,
        j == 0 ==> {
            &&& s.head() == head_of(s.total_data_sectors as int, s.index_table@)
            &&& s.head().len() == 24 + 4 * (s.total_data_sectors + 1)
            &&& planned_part(s, 0).len() >= s.head().len()
            &&& planned_part(s, 0).take(s.head().len() as int) == s.head()
        },
{
    lemma_planned_part(s, j);
    lemma_index_len(s.index_table@, s.index_table@.len() as int);
    cso_header_round_trips((s.total_data_sectors * 2048) as u64);
    if j == 0 {
        assert(planned_part(s, 0).take(s.head().len() as int) =~= s.head());
    }
}

/// An image whose compressed sectors stay below the split point is written as one part, named
/// without a number.
pub proof fn small_image_is_one_part<S: ByteSource>(s: CisoSession<S>)
    requires
        s.wf(),
        s.sizing_done,
        s.is_clean(),
        position(s.img(), base_of(s.n(), 0), 0, s.n()) < FILE_SPLIT_POINT,
    ensures
        s.parts@.len() == 1,
        part_name(s, 0) == s.base_name@ + ".cso"@,
{
    if s.parts@.len() > 1 {
        let p = s.parts@[0];
        lemma_planned_part(s, 0);
        assert(part_start(s.parts@, 0) == p.first_sector);
        lemma_positions_grow(s.img(), p.base as int, 0, p.end_sector as int, s.n());
    }
}

/// The pieces that a session hands out of an image whose compressed sectors stay below the split
/// point are one file: named without a number, padded to a multiple of 1024 bytes, and beginning
/// with header and index.
pub proof fn small_run_is_one_file<S: ByteSource>(
    states: Seq<CisoSession<S>>,
    sizes: Seq<usize>,
    chunks: Seq<Vec<u8>>,
    end: CisoSession<S>,
    last_size: usize,
)
    requires
        is_whole_run(states, sizes, chunks, end, last_size),
        position(states[0].img(), base_of(states[0].n(), 0), 0, states[0].n()) < FILE_SPLIT_POINT,
    ensures
        states[0].parts@.len() == 1,
        part_name(states[0], 0) == states[0].base_name@ + ".cso"@,
        forall|i: int|
            0 <= i < chunks.len() ==> #[trigger] piece_names(states)[i] == part_name(
                states[0],
                0,
            ),
        end_to_end(chunks) == planned_part(states[0], 0),
        end_to_end(chunks).len() == states[0].parts@[0].size,
        end_to_end(chunks).len() % 1024 == 0,
        states[0].head().len() == 24 + 4 * (states[0].total_data_sectors + 1),
        end_to_end(chunks).len() >= states[0].head().len(),
        end_to_end(chunks).take(states[0].head().len() as int) == head_of(
            states[0].n(),
            states[0].index_table@,
        ),
{
    let s = states[0];
    whole_run_is_the_parts(states, sizes, chunks, end, last_size);
    small_image_is_one_part(s);
    parts_are_padded(s, 0);
    let names = piece_names(states);
    assert forall|i: int| 0 <= i < chunks.len() implies #[trigger] names[i] == part_name(s, 0) by {
        assert(states[i].stream_part < 1);
    }
    one_mark_is_all(part_name(s, 0), names, chunks);
}

/// What a session has planned is a written image.
pub proof fn lemma_is_written<S: ByteSource>(s: CisoSession<S>)
    requires
        s.wf(),
        s.sizing_done,
        s.is_clean(),
        base_of(s.n(), 0) < FILE_SPLIT_POINT,
    ensures
        is_written(s.img(), s.n(), s.parts@, s.index_table@),
{
    let n = s.n();
    let img = s.img();
    let parts = s.parts@;
    assert(holds_on(s.plan@, img));
    assert(s.sized() == n);
    lemma_parts_hold_on(parts, s.plan@, img, n, n);
    assert forall|j: int, k: int|
        0 <= j < parts.len() && parts[j].first_sector <= k
            < parts[j].end_sector implies #[trigger] entry_of_part(
        s.index_table@,
        parts[j],
        img,
        k,
    ) by {
        let p = parts[j];
        lemma_parts_end(parts, s.plan@, n, n, j);
        assert(s.placed@[k] == k);
        assert(placed_in_part(s.index_table@, s.placed@, p, s.plan@, k));
        lemma_holds_on(s.plan@, img, p.base as int, p.first_sector as int, k);
        lemma_holds_on(s.plan@, img, p.base as int, p.first_sector as int, k + 1);
    }
    assert forall|k: int| 0 <= k < n implies body_decodes(#[trigger] sector_at(img, k)) by {
        lemma_holds_on(s.plan@, img, 0, k, k + 1);
        assert(body_decodes(sector_at(s.plan@, k)));
    }
}

/// A reader of the parts that a session has handed out, each made of the pieces that were named
/// after it, gives every sector whose end the index tells.
pub proof fn whole_run_reads_back<S: ByteSource, T: ByteSource>(
    states: Seq<CisoSession<S>>,
    sizes: Seq<usize>,
    chunks: Seq<Vec<u8>>,
    end: CisoSession<S>,
    last_size: usize,
    c: CisoSource<T>,
    j: int,
    k: int,
)
    requires
        is_whole_run(states, sizes, chunks, end, last_size),
        base_of(states[0].n(), 0) < FILE_SPLIT_POINT,
        c.wf(),
        c.header.alignment == 2,
        c.index_table@ == states[0].index_table@,
        c.parts@.len() == states[0].parts@.len(),
        forall|i: int|
            0 <= i < c.parts@.len() ==> (#[trigger] c.parts@[i]).bytes() == pieces_of(
                part_name(states[0], i),
                piece_names(states),
                chunks,
            ),
        0 <= j < states[0].parts@.len(),
        states[0].parts@[j].first_sector <= k < states[0].parts@[j].end_sector,
        k + 1 < states[0].parts@[j].end_sector || (k + 1 == states[0].n() && stored(
            sector_at(states[0].img(), k),
        ).len() % 4 == 0),
    ensures
        c.image_sector(k) == Ok::<Seq<u8>, CisoError>(sector_at(states[0].img(), k)),
{
    let s = states[0];
    whole_run_is_the_parts(states, sizes, chunks, end, last_size);
    lemma_is_written(s);
    assert(s.head() == head_of(s.n(), s.index_table@));
    assert forall|i: int| 0 <= i < s.parts@.len() implies (#[trigger] c.parts@[i]).bytes()
        == s.parts@[i].image(s.img(), i, head_of(s.n(), s.index_table@)) by {
        assert(pieces_of(part_name(s, i), piece_names(states), chunks) == planned_part(s, i));
    }
    image_reads_back(c, s.img(), s.n(), s.parts@, s.index_table@, j, k);
}

} // verus!
