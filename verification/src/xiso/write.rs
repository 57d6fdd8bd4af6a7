//! Writing a raw image: which sectors go out, which of them are zeroed, and how the stream is cut
//! into chunks and parts.
use crate::pieces::{end_to_end, go_through, goes_on, pieces_of, pieces_so_far};
use crate::scrub::{Platform, ScrubInfo};
use crate::source::{ByteSource, Scrubbed};
use crate::xiso::format::{
    build_output_manifest_for, is_manifest, part_count, part_size, split_name, split_name_for,
    split_names_differ, SECTOR_SIZE,
    SPLIT_MARGIN, SPLIT_MARGIN_SECTORS,
};
use crate::xiso::read::XisoError;
use std::collections::HashSet;
use vstd::prelude::*;
use vstd::std_specs::hash::*;

verus! {

/// How a raw image is written.
#[derive(Clone, Copy, Debug, PartialEq, Eq, Structural)]
pub enum XisoMode {
    /// The image was rebuilt: every sector of it goes out as it is.
    Full,
    /// Only what follows the last used byte is cut.
    Trim,
    /// The size is kept, and the unused sectors are zeroed. Xbox 360 images are trimmed instead.
    Zero,
}

impl Default for XisoMode {
    fn default() -> (r: XisoMode)
        ensures
            r == XisoMode::Full,
    {
        XisoMode::Full
    }
}

/// An image is cut after its last used byte: in mode `Trim`, and in mode `Zero` if it is an Xbox
/// 360 image.
pub open spec fn is_trimmed(mode: XisoMode, info: ScrubInfo) -> bool {
    mode == XisoMode::Trim || (mode == XisoMode::Zero && info.platform == Platform::X360)
}

/// How many sectors go out of an image that has `sectors` of them from its root offset.
pub open spec fn planned_sectors(
    mode: XisoMode,
    sectors: int,
    root_offset: int,
    info: ScrubInfo,
) -> int {
    if is_trimmed(mode, info) {
        info.used_len(root_offset)
    } else {
        sectors
    }
}

/// Sector `s` is zeroed: only in mode `Zero`, never for an Xbox 360 image, and only if no file
/// uses it.
pub open spec fn is_zeroed(mode: XisoMode, sectors: int, info: ScrubInfo, s: u64) -> bool {
    mode == XisoMode::Zero && s < sectors && info.is_spare(s)
}

/// `n` sectors go out of an image, and the sectors in `zero` are zeroed.
pub open spec fn is_sector_plan(
    mode: XisoMode,
    sectors: int,
    root_offset: int,
    info: ScrubInfo,
    n: u64,
    zero: Set<u64>,
) -> bool {
    &&& n == planned_sectors(mode, sectors, root_offset, info)
    &&& forall|s: u64| #[trigger] zero.contains(s) <==> is_zeroed(mode, sectors, info, s)
}

/// The sectors to write of an image, and those of them to zero.
pub fn plan_sectors(mode: XisoMode, sectors: u64, root_offset: u64, info: &ScrubInfo) -> (r: (
    u64,
    HashSet<u64>,
))
    requires
        is_trimmed(mode, *info) ==> root_offset <= info.max_end,
    ensures
        is_sector_plan(mode, sectors as int, root_offset as int, *info, r.0, r.1@),
{
    broadcast use group_hash_axioms;

    match mode {
        XisoMode::Full => (sectors, HashSet::new()),
        XisoMode::Trim => (info.trimmed_sectors(root_offset), HashSet::new()),
        XisoMode::Zero => {
            if info.platform == Platform::X360 {
                (info.trimmed_sectors(root_offset), HashSet::new())
            } else {
                (sectors, info.spare_sectors(sectors))
            }
        },
    }
}

/// The sector before which a chunk that starts at `start` ends: it holds at most `per_chunk`
/// sectors and `max_bytes` bytes, but always one sector, and a split output ends it with its part.
pub open spec fn chunk_end(
    start: int,
    total: int,
    per_chunk: int,
    max_bytes: int,
    split: bool,
) -> int {
    let by_bytes = if max_bytes / 2048 < 1 {
        1
    } else {
        max_bytes / 2048
    };
    let n = if per_chunk < by_bytes {
        per_chunk
    } else {
        by_bytes
    };
    let boundary = (start / SPLIT_MARGIN_SECTORS as int + 1) * SPLIT_MARGIN_SECTORS;
    let end = if split && boundary < start + n {
        boundary
    } else {
        start + n
    };
    if end < total {
        end
    } else {
        total
    }
}

/// A raw image on its way out.
pub struct XisoSession<S: ByteSource> {
    source: S,
    total_sectors: u64,
    current_sector: u64,
    sectors_per_chunk: u32,
    base_name: Option<String>,
    current_entry_name: Option<String>,
    output_manifest: Vec<(String, u64)>,
}

/// What a call for the next piece of the output makes of session `a`: session `b` and the
/// result `r`.
pub open spec fn chunk_step<S: ByteSource>(
    a: XisoSession<S>,
    b: XisoSession<S>,
    max_bytes: usize,
    r: Result<Option<Vec<u8>>, XisoError>,
) -> bool {
    &&& b.wf()
    &&& b.image() == a.image()
    &&& b.reliable() == a.reliable()
    &&& b.total() == a.total()
    &&& b.per_chunk() == a.per_chunk()
    &&& b.base() == a.base()
    &&& r == Ok::<Option<Vec<u8>>, XisoError>(None) <==> a.position() >= a.total()
    &&& a.position() >= a.total() ==> b == a
    &&& a.position() < a.total() ==> ({
        let start = a.position();
        let end = chunk_end(
            start,
            a.total(),
            a.per_chunk(),
            max_bytes as int,
            a.base() is Some,
        );
        &&& b.entry_name() == (match a.base() {
            Some(base) => Some(split_name(base, start / SPLIT_MARGIN_SECTORS as int)),
            None => None,
        })
        &&& match r {
            Ok(Some(data)) => {
                &&& end * 2048 <= a.image().len()
                &&& data@ == a.image().subrange(start * 2048, end * 2048)
                &&& b.position() == end
            },
            Ok(None) => false,
            Err(e) => {
                &&& e is Read
                &&& !a.reliable() || end * 2048 > a.image().len()
                &&& b.position() == start
            },
        }
    })
}

impl<S: ByteSource> XisoSession<S> {
    pub closed spec fn wf(&self) -> bool {
        &&& self.source.valid()
        &&& self.current_sector <= self.total_sectors
        &&& self.total_sectors * 2048 <= u64::MAX
        &&& self.sectors_per_chunk >= 1
        &&& match self.base_name {
            Some(base) => is_manifest(self.output_manifest@, base@, self.total_sectors * 2048),
            None => self.output_manifest@.len() == 0,
        }
        &&& self.current_entry_name is Some <==> self.base_name is Some
    }

    /// The image that is written.
    pub closed spec fn image(&self) -> Seq<u8> {
        self.source.bytes()
    }

    pub closed spec fn reliable(&self) -> bool {
        self.source.reliable()
    }

    /// Sectors to write.
    pub closed spec fn total(&self) -> int {
        self.total_sectors as int
    }

    /// Sectors written so far.
    pub closed spec fn position(&self) -> int {
        self.current_sector as int
    }

    pub closed spec fn per_chunk(&self) -> int {
        self.sectors_per_chunk as int
    }

    /// What the parts are named after, if the output is split.
    pub closed spec fn base(&self) -> Option<Seq<char>> {
        match self.base_name {
            Some(b) => Some(b@),
            None => None,
        }
    }

    /// The name of the part that the last chunk belongs to.
    pub closed spec fn entry_name(&self) -> Option<Seq<char>> {
        match self.current_entry_name {
            Some(b) => Some(b@),
            None => None,
        }
    }

    /// Opens a session over the first `total_sectors` sectors of `source`.
    pub fn open(
        source: S,
        total_sectors: u64,
        sectors_per_chunk: u32,
        split: bool,
        output_name: Option<String>,
    ) -> (r: Result<XisoSession<S>, XisoError>)
        requires
            source.valid(),
        ensures
            match r {
                Ok(s) => {
                    &&& !(split && output_name is None)
                    &&& total_sectors * 2048 <= u64::MAX
                    &&& s.wf()
                    &&& s.image() == source.bytes()
                    &&& s.reliable() == source.reliable()
                    &&& s.total() == total_sectors
                    &&& s.position() == 0
                    &&& s.per_chunk() == (if sectors_per_chunk < 1 {
                        1
                    } else {
                        sectors_per_chunk as int
                    })
                    &&& s.base() == (if split {
                        Some(output_name->Some_0@)
                    } else {
                        None
                    })
                    &&& s.entry_name() == (if split {
                        Some(split_name(output_name->Some_0@, 0))
                    } else {
                        None
                    })
                },
                Err(XisoError::SplitNeedsName) => split && output_name is None,
                Err(e) => e == XisoError::TooManySectors && !(split && output_name is None)
                    && total_sectors * 2048 > u64::MAX,
            },
    {
        if split && output_name.is_none() {
            return Err(XisoError::SplitNeedsName);
        }
        if total_sectors > 0xFFFF_FFFF_FFFF_FFFF / SECTOR_SIZE {
            return Err(XisoError::TooManySectors);
        }
        let base_name = if split {
            output_name
        } else {
            None
        };
        let (output_manifest, current_entry_name) = match &base_name {
            Some(name) => (
                build_output_manifest_for(name.as_str(), total_sectors * SECTOR_SIZE),
                Some(split_name_for(name.as_str(), 0)),
            ),
            None => (Vec::new(), None),
        };
        Ok(
            XisoSession {
                source,
                total_sectors,
                current_sector: 0,
                sectors_per_chunk: if sectors_per_chunk < 1 {
                    1
                } else {
                    sectors_per_chunk
                },
                base_name,
                current_entry_name,
                output_manifest,
            },
        )
    }

    /// The next piece of the output, of at most `max_bytes` bytes but always a whole sector.
    pub fn next_chunk(&mut self, max_bytes: usize) -> (r: Result<Option<Vec<u8>>, XisoError>)
        requires
            old(self).wf(),
        ensures
            chunk_step(*old(self), *final(self), max_bytes, r),
    {
        if self.current_sector >= self.total_sectors {
            return Ok(None);
        }
        let by_bytes: u64 = if max_bytes / 2048 < 1 {
            1
        } else {
            (max_bytes / 2048) as u64
        };
        let mut n: u64 = if (self.sectors_per_chunk as u64) < by_bytes {
            self.sectors_per_chunk as u64
        } else {
            by_bytes
        };
        let start: u64 = self.current_sector;
        if let Some(base_name) = &self.base_name {
            let index: u64 = start / SPLIT_MARGIN_SECTORS;
            let boundary: u64 = (index + 1) * SPLIT_MARGIN_SECTORS;
            if boundary - start < n {
                n = boundary - start;
            }
            self.current_entry_name = Some(split_name_for(base_name.as_str(), index));
        }
        let end: u64 = if n < self.total_sectors - start {
            start + n
        } else {
            self.total_sectors
        };
        let byte_len: u64 = (end - start) * SECTOR_SIZE;
        assert(byte_len <= n * 2048);
        let data = match self.source.read_at(start * SECTOR_SIZE, byte_len as usize) {
            Ok(d) => d,
            Err(e) => {
                return Err(XisoError::Read(e));
            },
        };
        self.current_sector = end;
        Ok(Some(data))
    }

    pub fn is_done(&self) -> (r: bool)
        ensures
            r == (self.position() >= self.total()),
    {
        self.current_sector >= self.total_sectors
    }

    pub fn total_units(&self) -> (r: u64)
        ensures
            r == self.total(),
    {
        self.total_sectors
    }

    pub fn current_entry_name(&self) -> (r: Option<&str>)
        ensures
            match r {
                Some(s) => self.entry_name() == Some(s@),
                None => self.entry_name() is None,
            },
    {
        match &self.current_entry_name {
            Some(s) => Some(s.as_str()),
            None => None,
        }
    }

    /// Name and size of every part; nothing if the output is not split.
    pub fn output_manifest(&self) -> (r: Vec<(String, u64)>)
        requires
            self.wf(),
        ensures
            match self.base() {
                Some(base) => is_manifest(r@, base, self.total() * 2048),
                None => r@.len() == 0,
            },
    {
        match &self.base_name {
            Some(name) => build_output_manifest_for(
                name.as_str(),
                self.total_sectors * SECTOR_SIZE,
            ),
            None => Vec::new(),
        }
    }
}

/// Session `s` is about to write the image `image` as `mode` asks for it.
pub open spec fn writes_image<S: ByteSource>(
    s: XisoSession<S>,
    mode: XisoMode,
    root_offset: int,
    info: ScrubInfo,
    image: Seq<u8>,
) -> bool {
    &&& s.wf()
    &&& s.position() == 0
    &&& s.total() == planned_sectors(mode, image.len() as int / 2048, root_offset, info)
    &&& s.image() == Seq::new(
        image.len(),
        |i: int|
            if is_zeroed(mode, image.len() as int / 2048, info, (i / 2048) as u64) {
                0
            } else {
                image[i]
            },
    )
}

/// `r` is what opening a session over a raw image with these arguments comes to.
pub open spec fn is_opened<S: ByteSource>(
    source: S,
    mode: XisoMode,
    root_offset: u64,
    info: ScrubInfo,
    sectors_per_chunk: u32,
    split: bool,
    output_name: Option<String>,
    r: Result<XisoSession<Scrubbed<S>>, XisoError>,
) -> bool {
    match r {
        Ok(s) => {
            &&& !(split && output_name is None)
            &&& writes_image(s, mode, root_offset as int, info, source.bytes())
            &&& s.reliable() == source.reliable()
            &&& s.per_chunk() == (if sectors_per_chunk < 1 {
                1
            } else {
                sectors_per_chunk as int
            })
            &&& s.base() == (if split {
                Some(output_name->Some_0@)
            } else {
                None
            })
        },
        Err(XisoError::SplitNeedsName) => split && output_name is None,
        Err(e) => e == XisoError::TooManySectors && !(split && output_name is None)
            && planned_sectors(
            mode,
            source.bytes().len() as int / 2048,
            root_offset as int,
            info,
        ) * 2048 > u64::MAX,
    }
}

/// Opens a session over a raw image, which is read from its root offset: `sectors` of them are
/// there, and what `info` says of them decides what is cut or zeroed.
pub fn open_direct<S: ByteSource>(
    source: S,
    mode: XisoMode,
    root_offset: u64,
    info: &ScrubInfo,
    sectors_per_chunk: u32,
    split: bool,
    output_name: Option<String>,
) -> (r: Result<XisoSession<Scrubbed<S>>, XisoError>)
    requires
        source.valid(),
        is_trimmed(mode, *info) ==> root_offset <= info.max_end,
    ensures
        is_opened(source, mode, root_offset, *info, sectors_per_chunk, split, output_name, r),
{
    let sectors: u64 = source.size() / SECTOR_SIZE;
    let (total_sectors, zero_sectors) = plan_sectors(mode, sectors, root_offset, info);
    let ghost b = source.bytes();
    let scrub = Scrubbed { image: source, zero_sectors };
    let r = XisoSession::open(scrub, total_sectors, sectors_per_chunk, split, output_name);
    proof {
        if let Ok(s) = &r {
            assert(s.image() =~= Seq::new(
                b.len(),
                |i: int|
                    if is_zeroed(mode, b.len() as int / 2048, *info, (i / 2048) as u64) {
                        0
                    } else {
                        b[i]
                    },
            ));
        }
    }
    r
}

/// A chunk makes progress, and the sectors of a chunk of a split output all belong to one part,
/// which the manifest lists.
pub proof fn chunks_stay_within_a_part(
    start: int,
    total: int,
    per_chunk: int,
    max_bytes: int,
    split: bool,
    s: int,
)
    requires
        0 <= start < total,
        1 <= per_chunk,
        0 <= max_bytes,
        start <= s < chunk_end(start, total, per_chunk, max_bytes, split),
    ensures
        start < chunk_end(start, total, per_chunk, max_bytes, split) <= total,
        split ==> s / SPLIT_MARGIN_SECTORS as int == start / SPLIT_MARGIN_SECTORS as int,
        part_count(total * 2048) > start / SPLIT_MARGIN_SECTORS as int,
{
    let m = SPLIT_MARGIN_SECTORS as int;
    let i = start / m;
    assert(i * m <= start < (i + 1) * m) by (nonlinear_arith)
        requires
            m == 2_088_960,
            i == start / m,
            0 <= start,
    ;
    if split {
        assert(s < (i + 1) * m);
        assert(s / m == i) by (nonlinear_arith)
            requires
                m == 2_088_960,
                i * m <= s < (i + 1) * m,
        ;
    }
    assert(i * SPLIT_MARGIN <= start * 2048);
    assert(i < (total * 2048 + SPLIT_MARGIN - 1) / SPLIT_MARGIN as int);
}

/// A chunk holds no more than it may: `max_bytes`, or one sector where that is less than one.
pub proof fn chunks_keep_to_their_size(
    start: int,
    total: int,
    per_chunk: int,
    max_bytes: int,
    split: bool,
)
    requires
        0 <= start < total,
        1 <= per_chunk,
        0 <= max_bytes,
    ensures
        ({
            let n = chunk_end(start, total, per_chunk, max_bytes, split) - start;
            n <= per_chunk && (n * 2048 <= max_bytes || n == 1)
        }),
{
}

/// What has been written when a chunk has gone out is what was written before and the chunk: the
/// chunks, end to end, are the image.
pub proof fn chunks_make_up_the_image(image: Seq<u8>, start: int, end: int)
    requires
        0 <= start <= end,
        end * 2048 <= image.len(),
    ensures
        image.take(start * 2048) + image.subrange(start * 2048, end * 2048) == image.take(
            end * 2048,
        ),
{
    assert(image.take(start * 2048) + image.subrange(start * 2048, end * 2048) =~= image.take(
        end * 2048,
    ));
}

/// Zeroing keeps every used sector as it was, and trimming cuts no used byte; an Xbox 360 image
/// is written in mode `Zero` as it is in mode `Trim`.
pub proof fn used_sectors_are_kept(
    mode: XisoMode,
    sectors: int,
    root_offset: int,
    info: ScrubInfo,
    s: u64,
)
    requires
        0 <= root_offset <= info.max_end,
        info.used_sectors@.contains(s),
    ensures
        !is_zeroed(mode, sectors, info, s),
        is_trimmed(mode, info) ==> info.max_end - root_offset <= planned_sectors(
            mode,
            sectors,
            root_offset,
            info,
        ) * 2048 < info.max_end - root_offset + 2048,
        info.platform == Platform::X360 ==> planned_sectors(
            XisoMode::Zero,
            sectors,
            root_offset,
            info,
        ) == planned_sectors(XisoMode::Trim, sectors, root_offset, info),
        info.platform == Platform::X360 ==> forall|t: u64|
            !#[trigger] is_zeroed(XisoMode::Zero, sectors, info, t),
{
}

/// Session `a` hands out the piece `chunk` and becomes `b`.
pub open spec fn hands_out<S: ByteSource>(
    a: XisoSession<S>,
    b: XisoSession<S>,
    max_bytes: usize,
    chunk: Vec<u8>,
) -> bool {
    chunk_step(a, b, max_bytes, Ok::<Option<Vec<u8>>, XisoError>(Some(chunk)))
}

/// A session goes through `states` from its beginning and hands out `chunks`, one between each
/// two of them; then it has no more.
pub open spec fn is_whole_run<S: ByteSource>(
    states: Seq<XisoSession<S>>,
    sizes: Seq<usize>,
    chunks: Seq<Vec<u8>>,
    end: XisoSession<S>,
    last_size: usize,
) -> bool {
    &&& states.len() == chunks.len() + 1
    &&& sizes.len() == chunks.len()
    &&& states[0].wf()
    &&& states[0].position() == 0
    &&& forall|i: int|
        0 <= i < chunks.len() ==> #[trigger] hands_out(
            states[i],
            states[i + 1],
            sizes[i],
            chunks[i],
        )
    &&& chunk_step(states.last(), end, last_size, Ok::<Option<Vec<u8>>, XisoError>(None))
}

proof fn lemma_run<S: ByteSource>(
    states: Seq<XisoSession<S>>,
    sizes: Seq<usize>,
    chunks: Seq<Vec<u8>>,
    end: XisoSession<S>,
    last_size: usize,
    k: int,
)
    requires
        is_whole_run(states, sizes, chunks, end, last_size),
        0 <= k <= chunks.len(),
    ensures
        states[k].wf(),
        states[k].image() == states[0].image(),
        states[k].total() == states[0].total(),
        states[k].per_chunk() == states[0].per_chunk(),
        states[k].base() == states[0].base(),
        0 <= states[k].position() <= states[k].total(),
        states[k].position() * 2048 <= states[0].image().len(),
        end_to_end(chunks.take(k)) == states[0].image().take(states[k].position() * 2048),
    decreases k,
{
    let image = states[0].image();
    if k > 0 {
        let i = k - 1;
        lemma_run(states, sizes, chunks, end, last_size, i);
        assert(hands_out(states[i], states[i + 1], sizes[i], chunks[i]));
        chunks_stay_within_a_part(
            states[i].position(),
            states[i].total(),
            states[i].per_chunk(),
            sizes[i] as int,
            states[i].base() is Some,
            states[i].position(),
        );
        chunks_make_up_the_image(image, states[i].position(), states[k].position());
        assert(chunks.take(k).drop_last() =~= chunks.take(i));
        assert(chunks.take(k).last() == chunks[i]);
    } else {
        assert(image.take(0) =~= Seq::empty());
    }
}

/// The pieces that a session hands out from beginning to end are the image, as far as it is
/// written, whatever sizes were asked for.
pub proof fn whole_run_is_the_image<S: ByteSource>(
    states: Seq<XisoSession<S>>,
    sizes: Seq<usize>,
    chunks: Seq<Vec<u8>>,
    end: XisoSession<S>,
    last_size: usize,
)
    requires
        is_whole_run(states, sizes, chunks, end, last_size),
    ensures
        end.position() == end.total(),
        end_to_end(chunks) == states[0].image().take(states[0].total() * 2048),
        end_to_end(chunks).len() == states[0].total() * 2048,
        states[0].total() * 2048 <= states[0].image().len(),
{
    let n = chunks.len() as int;
    lemma_run(states, sizes, chunks, end, last_size, n);
    assert(chunks.take(n) =~= chunks);
    assert(states[n] == states.last());
}

/// The part that each piece belongs to, as the session names it after the piece.
pub open spec fn piece_names<S: ByteSource>(states: Seq<XisoSession<S>>) -> Seq<Option<Seq<char>>> {
    Seq::new((states.len() - 1) as nat, |i: int| states[i + 1].entry_name())
}

/// Part `j` of a split image.
pub open spec fn split_part(image: Seq<u8>, total: int, j: int) -> Seq<u8> {
    image.subrange(j * SPLIT_MARGIN, j * SPLIT_MARGIN + part_size(total * 2048, j))
}

/// The part that the next piece belongs to.
pub open spec fn next_part<S: ByteSource>(s: XisoSession<S>) -> int {
    s.position() / SPLIT_MARGIN_SECTORS as int
}

/// The pieces of a split image are the parts of its manifest: those named after a part add up to
/// it.
pub proof fn whole_run_is_the_parts<S: ByteSource>(
    states: Seq<XisoSession<S>>,
    sizes: Seq<usize>,
    chunks: Seq<Vec<u8>>,
    end: XisoSession<S>,
    last_size: usize,
    j: int,
)
    requires
        is_whole_run(states, sizes, chunks, end, last_size),
        states[0].base() is Some,
        states[0].total() > 0,
        0 <= j < part_count(states[0].total() * 2048),
    ensures
        pieces_of(
            Some(split_name(states[0].base()->Some_0, j)),
            piece_names(states),
            chunks,
        ) == split_part(states[0].image(), states[0].total(), j),
{
    let n = chunks.len() as int;
    let s = states[0];
    let image = s.image();
    let total = s.total();
    let base = s.base()->Some_0;
    let m = SPLIT_MARGIN_SECTORS as int;
    let count = part_count(total * 2048) as nat;
    whole_run_is_the_image(states, sizes, chunks, end, last_size);
    let entry_keys = Seq::new(count, |k: int| Some(split_name(base, k)));
    let images = Seq::new(count, |k: int| split_part(image, total, k));
    let at = Seq::new(states.len(), |i: int| next_part(states[i]));
    let written = Seq::new(
        states.len(),
        |i: int|
            image.subrange(
                next_part(states[i]) * SPLIT_MARGIN,
                states[i].position() * 2048,
            ),
    );
    let keys = piece_names(states);
    assert forall|a: int, b: int| 0 <= a < b < entry_keys.len() implies #[trigger] entry_keys[a]
        != #[trigger] entry_keys[b] by {
        split_names_differ(base, a, b);
    }
    assert forall|i: int| 0 <= i < n implies #[trigger] goes_on(
        entry_keys,
        images,
        at,
        written,
        keys,
        chunks,
        i,
    ) by {
        lemma_piece_goes_on(states, sizes, chunks, end, last_size, i);
        assert(keys[i] == entry_keys[at[i]]);
        if at[i + 1] != at[i] {
            assert(written[i + 1].len() == 0);
        }
    }
    assert(go_through(entry_keys, images, at, written, keys, chunks));
    lemma_run(states, sizes, chunks, end, last_size, n);
    assert(states[n] == states.last());
    assert(states[n].position() == total);
    assert(chunks.take(n) =~= chunks);
    pieces_so_far(entry_keys, images, at, written, keys, chunks, n, j);
    assert(entry_keys[j] == Some(split_name(base, j)));
    if j >= at[n] {
        assert(j == at[n] && split_part(image, total, j) =~= written[n]) by {
            assert(j >= total / m);
            assert(j * SPLIT_MARGIN < total * 2048);
        }
    }
}

proof fn lemma_piece_goes_on<S: ByteSource>(
    states: Seq<XisoSession<S>>,
    sizes: Seq<usize>,
    chunks: Seq<Vec<u8>>,
    end: XisoSession<S>,
    last_size: usize,
    i: int,
)
    requires
        is_whole_run(states, sizes, chunks, end, last_size),
        states[0].base() is Some,
        0 <= i < chunks.len(),
    ensures
        ({
            let image = states[0].image();
            let total = states[0].total();
            let at = next_part(states[i]);
            let start = states[i].position();
            let stop = states[i + 1].position();
            &&& 0 <= at < part_count(total * 2048)
            &&& 0 <= stop * 2048 <= image.len()
            &&& states[i + 1].entry_name() == Some(split_name(states[0].base()->Some_0, at))
            &&& if next_part(states[i + 1]) == at {
                image.subrange(at * SPLIT_MARGIN, stop * 2048) == image.subrange(
                    at * SPLIT_MARGIN,
                    start * 2048,
                ) + chunks[i]@
            } else {
                &&& next_part(states[i + 1]) == at + 1
                &&& stop * 2048 == (at + 1) * SPLIT_MARGIN
                &&& image.subrange(at * SPLIT_MARGIN, start * 2048) + chunks[i]@ == split_part(
                    image,
                    total,
                    at,
                )
            }
        }),
{
    let m = SPLIT_MARGIN_SECTORS as int;
    let s = states[i];
    let image = states[0].image();
    let total = states[0].total();
    lemma_run(states, sizes, chunks, end, last_size, i);
    lemma_run(states, sizes, chunks, end, last_size, i + 1);
    assert(hands_out(states[i], states[i + 1], sizes[i], chunks[i]));
    let start = s.position();
    let stop = states[i + 1].position();
    let at = start / m;
    chunks_stay_within_a_part(start, total, s.per_chunk(), sizes[i] as int, true, start);
    chunks_stay_within_a_part(start, total, s.per_chunk(), sizes[i] as int, true, stop - 1);
    assert((stop - 1) / m == at);
    assert(at * m <= start < stop <= (at + 1) * m);
    assert(at * SPLIT_MARGIN == at * m * 2048);
    assert(image.subrange(at * SPLIT_MARGIN, start * 2048) + chunks[i]@ =~= image.subrange(
        at * SPLIT_MARGIN,
        stop * 2048,
    ));
}

/// In mode `Zero` every sector of an original Xbox image that no file uses is zeroed, and no
/// other, and all sectors go out. In mode `Trim`, and of an Xbox 360 image, none is zeroed, and
/// what goes out ends with the sector of the last used byte. A rebuilt image goes out as it is.
pub proof fn unused_sectors_are_zeroed(
    mode: XisoMode,
    sectors: int,
    root_offset: int,
    info: ScrubInfo,
    n: u64,
    zero: Set<u64>,
    s: u64,
)
    requires
        0 <= root_offset <= info.max_end,
        is_sector_plan(mode, sectors, root_offset, info, n, zero),
    ensures
        mode == XisoMode::Zero && info.platform == Platform::Xbox ==> {
            &&& n == sectors
            &&& zero.contains(s) <==> s < sectors && !info.used_sectors@.contains(s)
        },
        mode == XisoMode::Trim || (mode == XisoMode::Zero && info.platform == Platform::X360) ==> {
            &&& !zero.contains(s)
            &&& root_offset + n * 2048 >= info.max_end
            &&& n > 0 ==> root_offset + (n - 1) * 2048 < info.max_end
        },
        mode == XisoMode::Full ==> n == sectors && !zero.contains(s),
{
}

/// What a session hands out of an image from beginning to end, byte by byte: in mode `Zero` the
/// whole image, with zeros in every sector that no file uses if it is an original Xbox image; in
/// mode `Trim`, and of an Xbox 360 image in mode `Zero`, the image up to the sector of its last
/// used byte; a rebuilt image as it is.
pub proof fn written_image_is_what_the_mode_asks_for<S: ByteSource>(
    states: Seq<XisoSession<S>>,
    sizes: Seq<usize>,
    chunks: Seq<Vec<u8>>,
    end: XisoSession<S>,
    last_size: usize,
    mode: XisoMode,
    root_offset: int,
    info: ScrubInfo,
    image: Seq<u8>,
    i: int,
)
    requires
        is_whole_run(states, sizes, chunks, end, last_size),
        writes_image(states[0], mode, root_offset, info, image),
        image.len() <= u64::MAX,
        0 <= root_offset <= info.max_end,
        0 <= i < end_to_end(chunks).len(),
    ensures
        i < image.len(),
        mode == XisoMode::Zero && info.platform == Platform::Xbox ==> {
            &&& end_to_end(chunks).len() == image.len() / 2048 * 2048
            &&& end_to_end(chunks)[i] == (if info.used_sectors@.contains((i / 2048) as u64) {
                image[i]
            } else {
                0
            })
        },
        mode == XisoMode::Trim || (mode == XisoMode::Zero && info.platform == Platform::X360) ==> {
            &&& root_offset + end_to_end(chunks).len() >= info.max_end
            &&& root_offset + end_to_end(chunks).len() < info.max_end + 2048
            &&& end_to_end(chunks).len() % 2048 == 0
            &&& end_to_end(chunks)[i] == image[i]
        },
        mode == XisoMode::Full ==> {
            &&& end_to_end(chunks).len() == image.len() / 2048 * 2048
            &&& end_to_end(chunks)[i] == image[i]
        },
{
    let n = chunks.len() as int;
    whole_run_is_the_image(states, sizes, chunks, end, last_size);
    lemma_run(states, sizes, chunks, end, last_size, n);
    assert(states[n] == states.last());
    assert(states[n].position() == states[0].total());
    assert(end_to_end(chunks)[i] == states[0].image()[i]);
}

/// A split output is cut every 0xFF00_0000 bytes: byte `i` of the image is byte `i % 0xFF00_0000`
/// of part `i / 0xFF00_0000`, counted from zero, and there is no other part.
pub proof fn parts_are_cut_at_the_margin(image: Seq<u8>, total: int, i: int)
    requires
        0 < total,
        total * 2048 <= image.len(),
        0 <= i < total * 2048,
    ensures
        0 <= i / 0xFF00_0000 < part_count(total * 2048),
        i % 0xFF00_0000 < split_part(image, total, i / 0xFF00_0000).len(),
        split_part(image, total, i / 0xFF00_0000)[i % 0xFF00_0000] == image[i],
        split_part(image, total, i / 0xFF00_0000).len() <= 0xFF00_0000,
        (part_count(total * 2048) - 1) * 0xFF00_0000 < total * 2048,
{
}

/// A chunk is as long as it may be: it ends with the image, with a part of 0xFF00_0000 bytes if
/// the output is split, or where another sector would be more than was asked for.
pub proof fn chunks_are_as_long_as_they_may_be(
    start: int,
    total: int,
    per_chunk: int,
    max_bytes: int,
    split: bool,
)
    requires
        0 <= start < total,
        1 <= per_chunk,
        0 <= max_bytes,
    ensures
        ({
            let end = chunk_end(start, total, per_chunk, max_bytes, split);
            let n = end - start;
            ||| end == total
            ||| split && end * 2048 % 0xFF00_0000 == 0
            ||| n == per_chunk
            ||| (n + 1) * 2048 > max_bytes
        }),
{
    let k = start / SPLIT_MARGIN_SECTORS as int + 1;
    assert(k * 2_088_960 * 2048 == k * 0xFF00_0000);
    assert(k * 0xFF00_0000 % 0xFF00_0000 == 0);
}

/// A raw image that is opened and handed out piece by piece is what its mode asks for: in mode
/// `Zero` the whole image, with zeros in every sector that no file uses if it is an original Xbox
/// image; in mode `Trim`, and of an Xbox 360 image in mode `Zero`, the image up to the sector of its
/// last used byte; a rebuilt image as it is. Without a name nothing is split, and with one the
/// pieces are named after their parts only if it is.
pub proof fn direct_conversion_is_what_the_mode_asks_for<S: ByteSource>(
    source: S,
    mode: XisoMode,
    root_offset: u64,
    info: ScrubInfo,
    per_chunk: u32,
    split: bool,
    name: Option<String>,
    states: Seq<XisoSession<Scrubbed<S>>>,
    sizes: Seq<usize>,
    chunks: Seq<Vec<u8>>,
    end: XisoSession<Scrubbed<S>>,
    last_size: usize,
    i: int,
)
    requires
        states.len() > 0,
        is_opened(
            source,
            mode,
            root_offset,
            info,
            per_chunk,
            split,
            name,
            Ok::<XisoSession<Scrubbed<S>>, XisoError>(states[0]),
        ),
        is_whole_run(states, sizes, chunks, end, last_size),
        source.bytes().len() <= u64::MAX,
        root_offset <= info.max_end,
        0 <= i < end_to_end(chunks).len(),
    ensures
        ({
            let image = source.bytes();
            let out = end_to_end(chunks);
            let trims = mode == XisoMode::Trim || (mode == XisoMode::Zero && info.platform
                == Platform::X360);
            let zeroes = mode == XisoMode::Zero && info.platform == Platform::Xbox;
            &&& i < image.len()
            &&& !trims ==> out.len() == image.len() / 2048 * 2048
            &&& trims ==> info.max_end <= root_offset + out.len() < info.max_end + 2048
            &&& out[i] == (if zeroes && !info.used_sectors@.contains((i / 2048) as u64) {
                0
            } else {
                image[i]
            })
        }),
        split ==> name is Some && states[0].base() == Some(name->0@),
        !split ==> states[0].base() is None,
        1 <= states[0].per_chunk(),
        per_chunk >= 1 ==> states[0].per_chunk() == per_chunk,
{
    written_image_is_what_the_mode_asks_for(
        states,
        sizes,
        chunks,
        end,
        last_size,
        mode,
        root_offset as int,
        info,
        source.bytes(),
        i,
    );
}

} // verus!
