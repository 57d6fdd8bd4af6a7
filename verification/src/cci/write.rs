//! Writing an image as `.cci` parts: a sizing pass that fixes every header and index, then the
//! parts themselves.
use crate::bytes::{copy_range, field, le_bytes, put_le, put_slice};
use crate::cci::format::{
    header_bytes, is_kept_compressed, output_name, output_name_for, part_header, sector_slot,
    serialize_cci_header, slot, slot_lengths, FILE_SPLIT_POINT, HEADER_SIZE, SECTOR_SIZE,
    SIZING_BATCH_SECTORS,
};
use crate::cci::read::{
    non_decreasing, parse_part, part_index, part_sector, slot_round_trips, CciError, PartIndex,
};
use crate::lz4::{lz4_compressed, lz4_decoded};
use crate::source::{ByteSource, ReadError};
use vstd::prelude::*;

verus! {

broadcast use crate::bytes::group_fields;

/// Sector `i` of an image.
pub open spec fn sector_at(img: Seq<u8>, i: int) -> Seq<u8> {
    img.subrange(i * 2048, i * 2048 + 2048)
}

/// A sector whose LZ4 block decodes to it.
pub open spec fn round_trips(sector: Seq<u8>) -> bool {
    lz4_decoded(lz4_compressed(sector), 2048) == Some(sector)
}

/// The slots of the sectors from `first` to before `end`, back to back.
pub open spec fn slots(img: Seq<u8>, first: int, end: int) -> Seq<u8>
    decreases end - first,
{
    if end <= first {
        Seq::empty()
    } else {
        slots(img, first, end - 1) + slot(sector_at(img, end - 1))
    }
}

/// Where the slot of sector `k` starts in a part that begins with sector `first`.
pub open spec fn slot_start(img: Seq<u8>, first: int, k: int) -> int {
    32 + slots(img, first, k).len() as int
}

/// The index entry of sector `k`: its position in units of four, the top bit for compression.
pub open spec fn entry(img: Seq<u8>, first: int, k: int) -> int {
    slot_start(img, first, k) / 4 + (if is_kept_compressed(sector_at(img, k)) {
        0x8000_0000int
    } else {
        0
    })
}

/// The index entries of the sectors from `first` to before `k`.
pub open spec fn index_entries(img: Seq<u8>, first: int, k: int) -> Seq<u8>
    decreases k - first,
{
    if k <= first {
        Seq::empty()
    } else {
        index_entries(img, first, k - 1) + le_bytes(entry(img, first, k - 1) as nat, 4)
    }
}

/// The index of a part, its last entry the end of the slots.
pub open spec fn index_table(img: Seq<u8>, first: int, end: int) -> Seq<u8> {
    index_entries(img, first, end) + le_bytes((slot_start(img, first, end) / 4) as nat, 4)
}

/// The header of the part of these sectors.
pub open spec fn header_of_part(img: Seq<u8>, first: int, end: int) -> Seq<u8> {
    header_bytes(
        part_header(((end - first) * 2048) as u64, slot_start(img, first, end) as u64),
    )
}

/// The part of the sectors from `first` to before `end`.
pub open spec fn part_image(img: Seq<u8>, first: int, end: int) -> Seq<u8> {
    header_of_part(img, first, end) + slots(img, first, end) + index_table(img, first, end)
}

/// The part of the sectors from `first` to before `end` of the image `img`, with the header and
/// the index that were sized over the sectors of `plan`.
pub open spec fn sized_part(plan: Seq<u8>, img: Seq<u8>, first: int, end: int) -> Seq<u8> {
    header_of_part(plan, first, end) + slots(img, first, end) + index_table(plan, first, end)
}

/// No part that begins at `first` ends before `end`: it does not pass the split point earlier.
pub open spec fn stays_below(img: Seq<u8>, first: int, end: int) -> bool {
    forall|k: int| first <= k < end ==> #[trigger] slot_start(img, first, k) <= FILE_SPLIT_POINT
}

/// A part that begins at `first` has passed the split point just before `end`.
pub open spec fn is_full(img: Seq<u8>, first: int, end: int) -> bool {
    stays_below(img, first, end) && slot_start(img, first, end) > FILE_SPLIT_POINT
}

/// Everything of one part that the sizing pass fixes.
pub struct CciPart {
    pub first_sector: u64,
    pub sector_count: u64,
    pub header_bytes: Vec<u8>,
    pub index_bytes: Vec<u8>,
    pub total_size: u64,
}

impl CciPart {
    pub open spec fn end(self) -> int {
        self.first_sector + self.sector_count
    }

    /// This is the part of its sectors.
    pub open spec fn matches(self, img: Seq<u8>) -> bool {
        &&& self.header_bytes@ == header_of_part(img, self.first_sector as int, self.end())
        &&& self.index_bytes@ == index_table(img, self.first_sector as int, self.end())
        &&& self.total_size == part_image(img, self.first_sector as int, self.end()).len()
        &&& stays_below(img, self.first_sector as int, self.end())
    }
}

/// Where part `j` starts: where the one before it ends.
pub open spec fn part_start(parts: Seq<CciPart>, j: int) -> int {
    if j <= 0 {
        0
    } else {
        parts[j - 1].end()
    }
}

/// The parts follow each other from the first sector up to sector `upto`, and each but the
/// last is full.
pub open spec fn parts_cover(parts: Seq<CciPart>, img: Seq<u8>, upto: int) -> bool {
    &&& forall|j: int| 0 <= j < parts.len() ==> (#[trigger] parts[j]).matches(img)
    &&& forall|j: int|
        0 <= j < parts.len() ==> #[trigger] part_start(parts, j) == parts[j].first_sector
    &&& forall|j: int|
        0 <= j < parts.len() - 1 ==> is_full(
            img,
            (#[trigger] parts[j]).first_sector as int,
            parts[j].end(),
        )
    &&& upto == (if parts.len() == 0 {
        0
    } else {
        parts.last().end()
    })
}

/// Slots take whole words, at least one and at most 512 each.
pub proof fn lemma_slots(img: Seq<u8>, first: int, k: int, n: int)
    requires
        0 <= first <= k <= n,
        n * 2048 <= img.len(),
    ensures
        slots(img, first, k).len() % 4 == 0,
        4 * (k - first) <= slots(img, first, k).len() <= 2048 * (k - first),
    decreases k - first,
{
    if first < k {
        lemma_slots(img, first, k - 1, n);
        slot_lengths(sector_at(img, k - 1));
    }
}

/// An index has four bytes for each sector.
pub proof fn lemma_index_len(img: Seq<u8>, first: int, k: int)
    requires
        first <= k,
    ensures
        index_entries(img, first, k).len() == 4 * (k - first),
    decreases k - first,
{
    if first < k {
        lemma_index_len(img, first, k - 1);
    }
}

/// A part passes the split point by less than one sector.
pub proof fn lemma_start_bound(img: Seq<u8>, first: int, k: int, n: int)
    requires
        0 <= first <= k <= n,
        n * 2048 <= img.len(),
        stays_below(img, first, k),
    ensures
        slot_start(img, first, k) <= FILE_SPLIT_POINT + 2048,
        slot_start(img, first, k) % 4 == 0,
{
    lemma_slots(img, first, k, n);
    if first < k {
        assert(slot_start(img, first, k - 1) <= FILE_SPLIT_POINT);
        slot_lengths(sector_at(img, k - 1));
    }
}

/// `b` holds the whole sectors of `a`, and may hold more.
pub open spec fn holds_on(a: Seq<u8>, b: Seq<u8>) -> bool {
    &&& a.len() % 2048 == 0
    &&& a.len() <= b.len()
    &&& b.take(a.len() as int) == a
}

/// What is made of the sectors of an image stays as it is when more come behind them.
pub proof fn lemma_holds_on(a: Seq<u8>, b: Seq<u8>, first: int, k: int)
    requires
        holds_on(a, b),
        0 <= first <= k,
        k * 2048 <= a.len(),
    ensures
        slots(b, first, k) == slots(a, first, k),
        index_entries(b, first, k) == index_entries(a, first, k),
        first < k ==> sector_at(b, k - 1) == sector_at(a, k - 1),
    decreases k - first,
{
    if first < k {
        lemma_holds_on(a, b, first, k - 1);
        assert(sector_at(b, k - 1) =~= sector_at(b.take(a.len() as int), k - 1));
    }
}

/// The parts of an image stay its parts when more sectors come behind theirs.
pub proof fn lemma_part_holds_on(a: Seq<u8>, b: Seq<u8>, first: int, end: int)
    requires
        holds_on(a, b),
        0 <= first <= end,
        end * 2048 <= a.len(),
    ensures
        header_of_part(b, first, end) == header_of_part(a, first, end),
        index_table(b, first, end) == index_table(a, first, end),
        part_image(b, first, end) == part_image(a, first, end),
        stays_below(b, first, end) == stays_below(a, first, end),
        is_full(b, first, end) == is_full(a, first, end),
        slot_start(b, first, end) == slot_start(a, first, end),
{
    lemma_holds_on(a, b, first, end);
    assert forall|k: int| first <= k < end implies #[trigger] slot_start(b, first, k)
        == slot_start(a, first, k) by {
        lemma_holds_on(a, b, first, k);
    }
    if stays_below(a, first, end) {
        assert forall|k: int| first <= k < end implies #[trigger] slot_start(b, first, k)
            <= FILE_SPLIT_POINT by {
            assert(slot_start(a, first, k) <= FILE_SPLIT_POINT);
        }
    }
    if stays_below(b, first, end) {
        assert forall|k: int| first <= k < end implies #[trigger] slot_start(a, first, k)
            <= FILE_SPLIT_POINT by {
            assert(slot_start(b, first, k) <= FILE_SPLIT_POINT);
        }
    }
}

/// All parts of an image stay its parts when more sectors come behind theirs.
pub proof fn lemma_parts_hold_on(parts: Seq<CciPart>, a: Seq<u8>, b: Seq<u8>, upto: int)
    requires
        holds_on(a, b),
        parts_cover(parts, a, upto),
        upto * 2048 <= a.len(),
    ensures
        parts_cover(parts, b, upto),
        forall|j: int|
            0 <= j < parts.len() ==> is_full(
                b,
                (#[trigger] parts[j]).first_sector as int,
                parts[j].end(),
            ) == is_full(a, parts[j].first_sector as int, parts[j].end()),
{
    assert forall|j: int| 0 <= j < parts.len() implies (#[trigger] parts[j]).matches(b) && is_full(
        b,
        parts[j].first_sector as int,
        parts[j].end(),
    ) == is_full(a, parts[j].first_sector as int, parts[j].end()) by {
        assert(parts[j].matches(a));
        lemma_parts_end(parts, a, upto, j);
        lemma_part_holds_on(a, b, parts[j].first_sector as int, parts[j].end());
    }
    assert forall|j: int| 0 <= j < parts.len() - 1 implies is_full(
        b,
        (#[trigger] parts[j]).first_sector as int,
        parts[j].end(),
    ) by {
        assert(is_full(a, parts[j].first_sector as int, parts[j].end()));
    }
}

#[derive(Clone, Copy, Debug, PartialEq, Eq, Structural)]
pub enum StreamStage {
    Header,
    Sectors,
    Index,
}

/// Why a chunk cannot be had.
#[derive(Clone, Copy, Debug, PartialEq, Eq, Structural)]
pub enum CciWriteError {
    /// Output was asked for before the sizing pass was over.
    SizingUnfinished,
    /// More sectors were sized than can be counted in 64 bits.
    TooManySectors,
    Read(ReadError),
}

impl CciWriteError {
    pub open spec fn text(self) -> Seq<char> {
        match self {
            CciWriteError::SizingUnfinished =>
                "cci: next_chunk() called before hash_next_part() finished sizing"@,
            CciWriteError::TooManySectors => "cci: too many sectors"@,
            CciWriteError::Read(_) => "cci: read failed"@,
        }
    }

    pub fn message(&self) -> (r: &'static str)
        ensures
            r@ == self.text(),
    {
        match *self {
            CciWriteError::SizingUnfinished =>
                "cci: next_chunk() called before hash_next_part() finished sizing",
            CciWriteError::TooManySectors => "cci: too many sectors",
            CciWriteError::Read(_) => "cci: read failed",
        }
    }
}

/// Emits the parts of an image.
pub struct CciSession<S: ByteSource> {
    pub source: S,
    pub total_data_sectors: u64,
    pub sizing_next_sector: u64,
    pub sizing_part_first_sector: u64,
    pub sizing_part_position: u64,
    /// Slot length and compression of each sector of the part that is being sized.
    pub sizing_part_index_infos: Vec<(u32, bool)>,
    pub sizing_done: bool,
    pub parts: Vec<CciPart>,
    pub stream_part: usize,
    pub stream_stage: StreamStage,
    pub stream_blob_pos: usize,
    pub stream_sector_cursor: u64,
    pub base_name: String,
    pub current_entry_name: String,
    /// The sectors that were sized, back to back. A batch that fails half way is sized again from
    /// its first sector, behind those that were sized before it failed.
    pub plan: Ghost<Seq<u8>>,
    /// What the session has got through of the current part: what was emitted, and what was
    /// dropped when a read failed behind it.
    pub written: Ghost<Seq<u8>>,
}

/// What a call for the next piece of the output makes of session `a`: session `b` and the
/// result `r`.
pub open spec fn chunk_step<S: ByteSource>(
    a: CciSession<S>,
    b: CciSession<S>,
    max_bytes: usize,
    r: Result<Option<Vec<u8>>, CciWriteError>,
) -> bool {
    &&& b.wf()
    &&& b.same_image(&a)
    &&& b.sizing_done == a.sizing_done
    &&& b.parts == a.parts
    &&& b.plan == a.plan
    &&& r == Err::<Option<Vec<u8>>, CciWriteError>(CciWriteError::SizingUnfinished)
        <==> !a.sizing_done
    &&& !a.sizing_done ==> b == a
    &&& a.sizing_done ==> match r {
        Ok(None) => a.stream_part >= a.parts@.len() && b == a,
        Ok(Some(c)) => {
            &&& a.stream_part < a.parts@.len()
            &&& b.current_entry_name@ == output_name(
                a.base_name@,
                a.stream_part as int,
                a.parts@.len() as int,
            )
            &&& c@.len() <= max_bytes + 2047
            &&& max_bytes > 0 ==> c@.len() > 0
            &&& c@.len() >= max_bytes || a.is_seam(
                (a.written@.len() + c@.len()) as int,
            )
            &&& if b.stream_part == a.stream_part {
                b.written@ == a.written@ + c@
            } else {
                &&& b.stream_part == a.stream_part + 1
                &&& b.written@.len() == 0
                &&& a.written@ + c@ == a.streamed_image()
            }
        },
        Err(e) => {
            &&& e is Read
            &&& a.stream_part < a.parts@.len()
            &&& a.stream_stage == StreamStage::Sectors
            &&& b.stream_stage == StreamStage::Sectors
            &&& b.stream_part == a.stream_part
            &&& a.stream_sector_cursor <= b.stream_sector_cursor < a.streamed().end()
            &&& a.may_fail_at(b.stream_sector_cursor as int)
            &&& b.written@ == a.written@ + slots(
                a.img(),
                a.stream_sector_cursor as int,
                b.stream_sector_cursor as int,
            )
            &&& b.current_entry_name@ == output_name(
                a.base_name@,
                a.stream_part as int,
                a.parts@.len() as int,
            )
        },
    }
}

/// The sectors of session `a` from the next one that is to be sized to before sector `k`, behind
/// those that were sized.
pub open spec fn plan_upto<S: ByteSource>(a: CciSession<S>, k: int) -> Seq<u8> {
    a.plan@ + a.img().subrange(a.sizing_next_sector * 2048, k * 2048)
}

/// Where the batch ends that is sized next.
pub open spec fn batch_end<S: ByteSource>(a: CciSession<S>) -> int {
    if a.total_data_sectors - a.sizing_next_sector <= 256 {
        a.total_data_sectors as int
    } else {
        a.sizing_next_sector + 256
    }
}

/// The sizing of session `a` stopped at sector `k` and made session `b` of it: what was sized of
/// the batch stays, and the batch is still to come.
pub open spec fn stopped_at<S: ByteSource>(a: CciSession<S>, b: CciSession<S>, k: int) -> bool {
    &&& a.sizing_next_sector <= k < batch_end(a)
    &&& k * 2048 <= a.img().len()
    &&& b.plan@ == plan_upto(a, k)
    &&& b.sizing_next_sector == a.sizing_next_sector
}

/// What one step of preparation makes of session `a`: session `b` and the result `r`.
pub open spec fn hash_step<S: ByteSource>(
    a: CciSession<S>,
    b: CciSession<S>,
    r: Result<bool, CciWriteError>,
) -> bool {
    &&& b.wf()
    &&& b.same_image(&a)
    &&& match r {
        Ok(done) => {
            &&& done == b.sizing_done
            &&& a.sizing_done ==> done && b == a
            &&& !a.sizing_done ==> {
                &&& b.sizing_next_sector == batch_end(a)
                &&& batch_end(a) * 2048 <= a.img().len()
                &&& b.plan@ == plan_upto(a, batch_end(a))
                &&& done == (b.sizing_next_sector == a.total_data_sectors)
            }
            &&& !a.sizing_done && done ==> b.stream_part == 0
                && b.stream_stage == StreamStage::Header
                && b.written@.len() == 0 && b.current_entry_name@
                == output_name(a.base_name@, 0, b.parts@.len() as int)
            &&& !done ==> b.current_entry_name == a.current_entry_name
        },
        Err(e) => {
            &&& !a.sizing_done && !b.sizing_done
            &&& b.current_entry_name == a.current_entry_name
            &&& match e {
                CciWriteError::Read(_) => exists|k: int| #[trigger]
                    stopped_at(a, b, k) && a.may_fail_at(k),
                CciWriteError::TooManySectors => exists|k: int| #[trigger]
                    stopped_at(a, b, k) && b.plan@.len() == u64::MAX * 2048,
                CciWriteError::SizingUnfinished => false,
            }
        },
    }
}

/// `r` is a session that is opened over the first sectors of an image.
pub open spec fn is_opened<S: ByteSource>(
    source: S,
    total_data_sectors: u64,
    base_name: String,
    r: CciSession<S>,
) -> bool {
    &&& r.wf()
    &&& !r.sizing_done
    &&& r.sizing_next_sector == 0
    &&& r.plan@.len() == 0
    &&& r.is_clean()
    &&& r.source == source
    &&& r.total_data_sectors == total_data_sectors
    &&& r.base_name == base_name
    &&& r.current_entry_name@ == output_name(base_name@, 0, 1)
}

impl<S: ByteSource> CciSession<S> {
    pub open spec fn img(&self) -> Seq<u8> {
        self.source.bytes()
    }

    /// How many sectors were sized.
    pub open spec fn sized(&self) -> int {
        self.plan@.len() as int / 2048
    }

    /// What was sized is the image, sector by sector: no read failed on the way.
    pub open spec fn is_clean(&self) -> bool {
        self.plan@ == self.img().take(self.sizing_next_sector * 2048)
    }

    /// The sizing pass is on course.
    pub open spec fn sizing_wf(&self) -> bool {
        let img = self.plan@;
        let first = self.sizing_part_first_sector as int;
        let next = self.sized();
        &&& parts_cover(self.parts@, img, first)
        &&& forall|j: int|
            0 <= j < self.parts@.len() ==> is_full(
                img,
                (#[trigger] self.parts@[j]).first_sector as int,
                self.parts@[j].end(),
            )
        &&& first <= next
        &&& self.sizing_part_index_infos@.len() == next - first
        &&& forall|i: int|
            0 <= i < next - first ==> (#[trigger] self.sizing_part_index_infos@[i]).0 == slot(
                sector_at(img, first + i),
            ).len() && self.sizing_part_index_infos@[i].1 == is_kept_compressed(
                sector_at(img, first + i),
            )
        &&& self.sizing_part_position == slot_start(img, first, next)
        &&& stays_below(img, first, next)
    }

    /// The streaming pass is on course: what was emitted is the start of the current part.
    pub open spec fn streaming_wf(&self) -> bool {
        let img = self.img();
        let plan = self.plan@;
        &&& self.parts@.len() >= 1
        &&& parts_cover(self.parts@, plan, self.sized())
        &&& self.stream_part <= self.parts@.len()
        &&& self.stream_part == self.parts@.len() ==> self.stream_stage == StreamStage::Header
            && self.stream_blob_pos == 0 && self.written@.len() == 0
        &&& self.stream_part < self.parts@.len() ==> {
            let p = self.parts@[self.stream_part as int];
            let first = p.first_sector as int;
            let head = header_of_part(plan, first, p.end());
            match self.stream_stage {
                StreamStage::Header => self.stream_blob_pos < 32 && self.written@ == head.take(
                    self.stream_blob_pos as int,
                ),
                StreamStage::Sectors => first <= self.stream_sector_cursor <= p.end()
                    && self.written@ == head + slots(
                    img,
                    first,
                    self.stream_sector_cursor as int,
                ),
                StreamStage::Index => self.stream_blob_pos < index_table(plan, first, p.end()).len()
                    && self.written@ == head + slots(img, first, p.end()) + index_table(
                    plan,
                    first,
                    p.end(),
                ).take(self.stream_blob_pos as int),
            }
        }
    }

    pub open spec fn wf(&self) -> bool {
        &&& self.source.valid()
        &&& self.sizing_next_sector * 2048 <= self.img().len()
        &&& self.sizing_next_sector <= self.total_data_sectors
        &&& self.total_data_sectors * 2048 <= u64::MAX
        &&& self.plan@.len() % 2048 == 0
        &&& self.sized() <= u64::MAX
        &&& forall|i: int| 0 <= i < self.sized() ==> round_trips(#[trigger] sector_at(self.plan@, i))
        &&& !self.sizing_done ==> self.sizing_wf()
        &&& self.sizing_done ==> self.streaming_wf() && self.sizing_next_sector
            == self.total_data_sectors
    }

    /// A read of sector `k` may fail: the source is not reliable, or ends before it does.
    pub open spec fn may_fail_at(&self, k: int) -> bool {
        !self.source.reliable() || (k + 1) * 2048 > self.img().len()
    }

    /// The same image is being written under the same name.
    pub open spec fn same_image(&self, other: &Self) -> bool {
        &&& self.source.bytes() == other.source.bytes()
        &&& self.source.reliable() == other.source.reliable()
        &&& self.total_data_sectors == other.total_data_sectors
        &&& self.base_name == other.base_name
    }

    /// A session for the first `total_data_sectors` sectors of `source`.
    pub fn open(source: S, total_data_sectors: u64, base_name: String) -> (r: CciSession<S>)
        requires
            source.valid(),
            total_data_sectors * 2048 <= u64::MAX,
        ensures
            is_opened(source, total_data_sectors, base_name, r),
    {
        let current_entry_name = output_name_for(base_name.as_str(), 0, 1);
        assert(source.bytes().take(0) =~= Seq::empty());
        CciSession {
            source,
            total_data_sectors,
            sizing_next_sector: 0,
            sizing_part_first_sector: 0,
            sizing_part_position: HEADER_SIZE,
            sizing_part_index_infos: Vec::new(),
            sizing_done: false,
            parts: Vec::new(),
            stream_part: 0,
            stream_stage: StreamStage::Header,
            stream_blob_pos: 0,
            stream_sector_cursor: 0,
            base_name,
            current_entry_name,
            plan: Ghost(Seq::empty()),
            written: Ghost(Seq::empty()),
        }
    }

    fn read_sector(&mut self, sector: u64) -> (r: Result<Vec<u8>, ReadError>)
        requires
            old(self).wf(),
        ensures
            final(self).wf(),
            final(self).same_image(old(self)),
            *final(self) == (CciSession { source: final(self).source, ..*old(self) }),
            r matches Ok(v) ==> v@ == sector_at(old(self).img(), sector as int),
            r is Ok ==> (sector + 1) * 2048 <= old(self).img().len(),
            r is Err ==> old(self).may_fail_at(sector as int),
    {
        if sector > self.source.size() / SECTOR_SIZE {
            return Err(ReadError);
        }
        self.source.read_at(sector * SECTOR_SIZE, 2048)
    }

    /// Closes the part that is being sized.
    fn finalize_sizing_part(&mut self)
        requires
            old(self).wf(),
            !old(self).sizing_done,
        ensures
            final(self).same_image(old(self)),
            final(self).source == old(self).source,
            final(self).sizing_done == old(self).sizing_done,
            final(self).sizing_next_sector == old(self).sizing_next_sector,
            final(self).sizing_part_first_sector == old(self).sized(),
            final(self).plan == old(self).plan,
            final(self).current_entry_name == old(self).current_entry_name,
            final(self).sizing_part_position == 32,
            final(self).sizing_part_index_infos@.len() == 0,
            final(self).parts@.len() == old(self).parts@.len() + 1,
            forall|j: int|
                0 <= j < old(self).parts@.len() ==> #[trigger] final(self).parts@[j] == old(
                    self,
                ).parts@[j],
            final(self).parts@.last().first_sector == old(self).sizing_part_first_sector,
            final(self).parts@.last().end() == old(self).sized(),
            parts_cover(
                final(self).parts@,
                old(self).plan@,
                old(self).sized(),
            ),
            final(self).stream_part == old(self).stream_part,
            final(self).written == old(self).written,
    {
        let ghost img = self.plan@;
        let first: u64 = self.sizing_part_first_sector;
        let ghost next = self.sized();
        let count: usize = self.sizing_part_index_infos.len();
        let mut position: u64 = HEADER_SIZE;
        let mut index_bytes: Vec<u8> = Vec::new();
        let mut i: usize = 0;
        while i < count
            invariant
                i <= count,
                count == self.sizing_part_index_infos@.len(),
                self.sizing_wf(),
                img == self.plan@,
                first == self.sizing_part_first_sector,
                next == self.sized(),
                count == next - first,
                next * 2048 <= img.len(),
                position == slot_start(img, first as int, first + i),
                index_bytes@ == index_entries(img, first as int, first + i),
            decreases count - i,
        {
            let (len, compressed) = self.sizing_part_index_infos[i];
            proof {
                assert(slot_start(img, first as int, first + i) <= FILE_SPLIT_POINT);
                lemma_slots(img, first as int, first + i, next);
            }
            let entry: u64 = position / 4 + (if compressed {
                0x8000_0000
            } else {
                0
            });
            put_le(&mut index_bytes, entry, 4);
            position = position + len as u64;
            i = i + 1;
        }
        proof {
            lemma_slots(img, first as int, next, next);
            lemma_start_bound(img, first as int, next, next);
            lemma_index_len(img, first as int, next);
        }
        put_le(&mut index_bytes, position / 4, 4);
        let header_bytes = serialize_cci_header(count as u64 * SECTOR_SIZE, position);
        let total_size: u64 = position + index_bytes.len() as u64;
        let part = CciPart {
            first_sector: first,
            sector_count: count as u64,
            header_bytes,
            index_bytes,
            total_size,
        };
        let ghost before = self.parts@;
        assert(part.matches(img));
        self.parts.push(part);
        self.sizing_part_index_infos = Vec::new();
        self.sizing_part_first_sector = first + count as u64;
        self.sizing_part_position = HEADER_SIZE;
        proof {
            let parts = self.parts@;
            assert forall|j: int| 0 <= j < parts.len() implies (#[trigger] parts[j]).matches(
                img,
            ) by {
                if j < before.len() {
                    assert(parts[j] == before[j]);
                }
            }
            assert forall|j: int| 0 <= j < parts.len() implies #[trigger] part_start(parts, j)
                == parts[j].first_sector by {
                if j < before.len() {
                    assert(parts[j] == before[j]);
                    assert(part_start(before, j) == before[j].first_sector);
                    if j > 0 {
                        assert(parts[j - 1] == before[j - 1]);
                    }
                } else if j > 0 {
                    assert(parts[j - 1] == before[j - 1]);
                }
            }
            assert forall|j: int| 0 <= j < parts.len() - 1 implies is_full(
                img,
                (#[trigger] parts[j]).first_sector as int,
                parts[j].end(),
            ) by {
                assert(parts[j] == before[j]);
            }
        }
    }

    /// Closes the part that is being sized if it has passed the split point.
    fn check_and_manage_sizing_write(&mut self)
        requires
            old(self).wf(),
            !old(self).sizing_done,
        ensures
            final(self).wf(),
            !final(self).sizing_done,
            final(self).same_image(old(self)),
            final(self).source == old(self).source,
            final(self).sizing_next_sector == old(self).sizing_next_sector,
            final(self).plan == old(self).plan,
            final(self).current_entry_name == old(self).current_entry_name,
            final(self).sizing_part_position <= FILE_SPLIT_POINT,
    {
        let ghost img = self.plan@;
        let ghost next = self.sized();
        if self.sizing_part_position > FILE_SPLIT_POINT {
            let ghost before = *self;
            self.finalize_sizing_part();
            proof {
                let parts = self.parts@;
                assert forall|j: int| 0 <= j < parts.len() implies is_full(
                    img,
                    (#[trigger] parts[j]).first_sector as int,
                    parts[j].end(),
                ) by {
                    if j < before.parts@.len() {
                        assert(parts[j] == before.parts@[j]);
                    }
                }
                assert(slots(img, next, next) =~= Seq::empty());
            }
        }
    }

    /// Sizes a sector behind those that were sized. A part that has passed the split point is
    /// closed first.
    fn size_sector(&mut self, sector: u64) -> (r: Result<(), CciWriteError>)
        requires
            old(self).wf(),
            !old(self).sizing_done,
        ensures
            final(self).wf(),
            !final(self).sizing_done,
            final(self).same_image(old(self)),
            final(self).sizing_next_sector == old(self).sizing_next_sector,
            final(self).current_entry_name == old(self).current_entry_name,
            match r {
                Ok(_) => (sector + 1) * 2048 <= old(self).img().len() && final(self).plan@ == old(
                    self,
                ).plan@ + sector_at(old(self).img(), sector as int),
                Err(e) => final(self).plan == old(self).plan && match e {
                    CciWriteError::Read(_) => old(self).may_fail_at(sector as int),
                    CciWriteError::TooManySectors => old(self).sized() == u64::MAX,
                    CciWriteError::SizingUnfinished => false,
                },
            },
    {
        self.check_and_manage_sizing_write();
        let data = match self.read_sector(sector) {
            Ok(v) => v,
            Err(e) => {
                return Err(CciWriteError::Read(e));
            },
        };
        let count: u64 = self.sizing_part_first_sector + self.sizing_part_index_infos.len() as u64;
        if count == 0xFFFF_FFFF_FFFF_FFFF {
            return Err(CciWriteError::TooManySectors);
        }
        let (stored, is_compressed) = sector_slot(data.as_slice());
        let ghost first = self.sizing_part_first_sector as int;
        let ghost infos = self.sizing_part_index_infos@;
        let ghost old_plan = self.plan@;
        let ghost n = self.sized();
        let ghost plan = old_plan + data@;
        proof {
            slot_lengths(data@);
            assert(plan.take(old_plan.len() as int) =~= old_plan);
            assert(holds_on(old_plan, plan));
            assert(sector_at(plan, n) =~= data@);
            lemma_parts_hold_on(self.parts@, old_plan, plan, first);
            lemma_part_holds_on(old_plan, plan, first, n);
        }
        self.sizing_part_index_infos.push((stored.len() as u32, is_compressed));
        self.sizing_part_position = self.sizing_part_position + stored.len() as u64;
        proof {
            self.plan@ = plan;
            assert(self.sized() == n + 1);
            assert forall|i: int| 0 <= i < n implies #[trigger] sector_at(plan, i) == sector_at(
                old_plan,
                i,
            ) by {
                lemma_holds_on(old_plan, plan, i, i + 1);
            }
            assert forall|i: int| 0 <= i < n + 1 - first implies (
            #[trigger] self.sizing_part_index_infos@[i]).0 == slot(sector_at(plan, first + i)).len()
                && self.sizing_part_index_infos@[i].1 == is_kept_compressed(
                sector_at(plan, first + i),
            ) by {
                if i < n - first {
                    assert(self.sizing_part_index_infos@[i] == infos[i]);
                }
            }
            assert(stays_below(plan, first, n + 1)) by {
                assert forall|k: int| first <= k < n + 1 implies #[trigger] slot_start(
                    plan,
                    first,
                    k,
                ) <= FILE_SPLIT_POINT by {
                }
            }
            assert forall|i: int| 0 <= i < n + 1 implies round_trips(
                #[trigger] sector_at(plan, i),
            ) by {
                if i < n {
                    assert(round_trips(sector_at(old_plan, i)));
                }
            }
        }
        Ok(())
    }

    /// Sizes the next batch of sectors; true once every part is fixed.
    pub fn hash_next_part(&mut self) -> (r: Result<bool, CciWriteError>)
        requires
            old(self).wf(),
        ensures
            hash_step(*old(self), *final(self), r),
    {
        if self.sizing_done {
            return Ok(true);
        }
        let start: u64 = self.sizing_next_sector;
        let total: u64 = self.total_data_sectors;
        let end: u64 = if total - start <= SIZING_BATCH_SECTORS {
            total
        } else {
            start + SIZING_BATCH_SECTORS
        };
        let ghost img = self.img();
        let mut sector: u64 = start;
        assert(self.plan@ + img.subrange(start * 2048, start * 2048) =~= self.plan@);
        while sector < end
            invariant
                self.wf(),
                !self.sizing_done,
                self.same_image(old(self)),
                img == self.img(),
                total == self.total_data_sectors,
                start == old(self).sizing_next_sector,
                start == self.sizing_next_sector,
                end == batch_end(*old(self)),
                start <= sector <= end <= total,
                sector * 2048 <= img.len(),
                self.plan@ == plan_upto(*old(self), sector as int),
                self.current_entry_name == old(self).current_entry_name,
                !old(self).sizing_done,
            decreases end - sector,
        {
            let ghost before = self.plan@;
            if let Err(e) = self.size_sector(sector) {
                assert(stopped_at(*old(self), *self, sector as int));
                return Err(e);
            }
            assert(before + sector_at(img, sector as int) =~= plan_upto(*old(self), sector + 1));
            sector = sector + 1;
        }
        self.sizing_next_sector = end;
        if end < total {
            return Ok(false);
        }
        self.finalize_sizing_part();
        self.stream_part = 0;
        self.stream_stage = StreamStage::Header;
        self.stream_blob_pos = 0;
        self.current_entry_name = output_name_for(self.base_name.as_str(), 0, self.parts.len());
        self.sizing_done = true;
        proof {
            self.written@ = Seq::empty();
            let p = self.parts@[0];
            assert(header_of_part(self.plan@, p.first_sector as int, p.end()).take(0)
                =~= Seq::empty());
        }
        Ok(true)
    }

    /// The part that is being emitted.
    pub open spec fn streamed(&self) -> CciPart {
        self.parts@[self.stream_part as int]
    }

    /// The bytes of the part that is being emitted.
    pub open spec fn streamed_image(&self) -> Seq<u8> {
        sized_part(
            self.plan@,
            self.img(),
            self.streamed().first_sector as int,
            self.streamed().end(),
        )
    }

    /// The slots of the next sectors, until `max_bytes` are reached or the part's sectors end.
    fn next_slots(&mut self, end_sector: u64, max_bytes: usize) -> (r: Result<Vec<u8>, ReadError>)
        requires
            old(self).wf(),
            old(self).sizing_done,
            old(self).stream_part < old(self).parts@.len(),
            old(self).stream_stage == StreamStage::Sectors,
            end_sector == old(self).streamed().end(),
        ensures
            final(self).wf(),
            final(self).same_image(old(self)),
            final(self).sizing_done,
            final(self).parts == old(self).parts,
            final(self).plan == old(self).plan,
            final(self).stream_part == old(self).stream_part,
            final(self).current_entry_name == old(self).current_entry_name,
            final(self).stream_stage == StreamStage::Sectors,
            match r {
                Ok(v) => {
                    &&& final(self).written@ == old(self).written@ + v@
                    &&& v@.len() >= max_bytes || final(self).stream_sector_cursor == end_sector
                    &&& v@.len() <= max_bytes + 2047
                    &&& old(self).stream_sector_cursor < end_sector && max_bytes > 0 ==> v@.len()
                        > 0
                },
                Err(_) => {
                    let cursor = final(self).stream_sector_cursor;
                    &&& old(self).stream_sector_cursor <= cursor < end_sector
                    &&& old(self).may_fail_at(cursor as int)
                    &&& final(self).written@ == old(self).written@ + slots(
                        old(self).img(),
                        old(self).stream_sector_cursor as int,
                        cursor as int,
                    )
                },
            },
    {
        let ghost img = self.img();
        let ghost start = self.stream_sector_cursor as int;
        let ghost first = self.streamed().first_sector as int;
        let ghost head = header_of_part(self.plan@, first, end_sector as int);
        let mut out: Vec<u8> = Vec::new();
        assert(self.written@ + out@ =~= self.written@);
        assert(slots(img, start, start) =~= out@);
        while self.stream_sector_cursor < end_sector && out.len() < max_bytes
            invariant
                self.wf(),
                self.same_image(old(self)),
                *self == (CciSession {
                    source: self.source,
                    stream_sector_cursor: self.stream_sector_cursor,
                    written: self.written,
                    ..*old(self)
                }),
                old(self).sizing_done,
                old(self).stream_part < old(self).parts@.len(),
                old(self).stream_stage == StreamStage::Sectors,
                img == self.img(),
                start == old(self).stream_sector_cursor,
                first == self.streamed().first_sector,
                end_sector == self.streamed().end(),
                head == header_of_part(self.plan@, first, end_sector as int),
                first <= start <= self.stream_sector_cursor <= end_sector,
                self.written@ == old(self).written@ + out@,
                out@ == slots(img, start, self.stream_sector_cursor as int),
                out@.len() <= max_bytes + 2047,
                self.stream_sector_cursor > start ==> out@.len() > 0,
            decreases end_sector - self.stream_sector_cursor,
        {
            let cursor: u64 = self.stream_sector_cursor;
            let data = match self.read_sector(cursor) {
                Ok(v) => v,
                Err(e) => {
                    return Err(e);
                },
            };
            proof {
                slot_lengths(data@);
            }
            let (stored, _) = sector_slot(data.as_slice());
            let ghost before = out@;
            let ghost written = self.written@;
            put_slice(&mut out, stored.as_slice());
            self.stream_sector_cursor = cursor + 1;
            proof {
                assert(out@ =~= before + stored@);
                self.written@ = written + stored@;
                assert(self.written@ =~= old(self).written@ + out@);
                assert(written + stored@ =~= head + (slots(img, first, cursor as int) + stored@));
            }
        }
        Ok(out)
    }

    /// The header, the slots or the index of the current part end after `at` bytes of it.
    pub open spec fn is_seam(&self, at: int) -> bool {
        let part = self.streamed();
        ||| at == 32
        ||| at == slot_start(self.img(), part.first_sector as int, part.end())
        ||| at == self.streamed_image().len()
    }

    /// The next piece of the output, at most about `max_bytes` of one part; none after the
    /// last part. What is emitted of a part is the part, from its start to its end.
    pub fn next_chunk(&mut self, max_bytes: usize) -> (r: Result<Option<Vec<u8>>, CciWriteError>)
        requires
            old(self).wf(),
        ensures
            chunk_step(*old(self), *final(self), max_bytes, r),
    {
        if !self.sizing_done {
            return Err(CciWriteError::SizingUnfinished);
        }
        let n: usize = self.parts.len();
        let p: usize = self.stream_part;
        if p >= n {
            return Ok(None);
        }
        let ghost img = self.img();
        let ghost plan = self.plan@;
        let ghost part = self.parts@[p as int];
        let ghost first = part.first_sector as int;
        let ghost end = part.end();
        let ghost head = header_of_part(plan, first, end);
        let ghost table = index_table(plan, first, end);
        let ghost before = self.written@;
        proof {
            assert(part.matches(plan));
            lemma_parts_end(self.parts@, plan, self.sized(), p as int);
        }
        self.current_entry_name = output_name_for(self.base_name.as_str(), p as u64, n);
        if self.stream_stage == StreamStage::Header {
            let pos: usize = self.stream_blob_pos;
            let stop: usize = if max_bytes < 32 - pos {
                pos + max_bytes
            } else {
                32
            };
            assert(head.len() == 32);
            let chunk = copy_range(self.parts[p].header_bytes.as_slice(), pos, stop);
            self.stream_blob_pos = stop;
            proof {
                self.written@ = before + chunk@;
                assert(self.written@ =~= head.take(stop as int));
            }
            if stop >= 32 {
                self.stream_stage = StreamStage::Sectors;
                self.stream_sector_cursor = self.parts[p].first_sector;
                self.stream_blob_pos = 0;
                assert(self.written@ =~= head + slots(img, first, first));
            }
            return Ok(Some(chunk));
        }
        let end_sector: u64 = self.parts[p].first_sector + self.parts[p].sector_count;
        if self.stream_stage == StreamStage::Sectors {
            if self.stream_sector_cursor < end_sector {
                assert(head.len() == 32);
                return match self.next_slots(end_sector, max_bytes) {
                    Ok(v) => Ok(Some(v)),
                    Err(e) => Err(CciWriteError::Read(e)),
                };
            }
            self.stream_stage = StreamStage::Index;
            self.stream_blob_pos = 0;
            assert(before =~= head + slots(img, first, end) + table.take(0));
        }
        let pos: usize = self.stream_blob_pos;
        let len: usize = self.parts[p].index_bytes.len();
        let stop: usize = if max_bytes < len - pos {
            pos + max_bytes
        } else {
            len
        };
        let chunk = copy_range(self.parts[p].index_bytes.as_slice(), pos, stop);
        self.stream_blob_pos = stop;
        assert(before + chunk@ =~= head + slots(img, first, end) + table.take(stop as int));
        if stop >= len {
            assert(table.take(stop as int) =~= table);
            self.stream_part = p + 1;
            self.stream_stage = StreamStage::Header;
            self.stream_blob_pos = 0;
            proof {
                self.written@ = Seq::empty();
                if p + 1 < n {
                    let q = self.parts@[p + 1];
                    assert(q.matches(plan));
                    assert(header_of_part(plan, q.first_sector as int, q.end()).take(0)
                        =~= Seq::empty());
                }
            }
        } else {
            proof {
                self.written@ = before + chunk@;
            }
        }
        Ok(Some(chunk))
    }

    pub fn is_done(&self) -> (r: bool)
        ensures
            r == (self.sizing_done && self.stream_part >= self.parts@.len()),
    {
        self.sizing_done && self.stream_part >= self.parts.len()
    }

    /// Progress is counted in sectors.
    pub fn total_units(&self) -> (r: u64)
        ensures
            r == self.total_data_sectors,
    {
        self.total_data_sectors
    }

    pub fn current_entry_name(&self) -> (r: &str)
        ensures
            r@ == self.current_entry_name@,
    {
        self.current_entry_name.as_str()
    }

    /// Name and size of every part, once they are fixed.
    pub fn output_manifest(&self) -> (r: Vec<(String, u64)>)
        requires
            self.wf(),
        ensures
            !self.sizing_done ==> r@.len() == 0,
            self.sizing_done ==> r@.len() == self.parts@.len() && forall|j: int|
                0 <= j < r@.len() ==> (#[trigger] r@[j]).0@ == output_name(
                    self.base_name@,
                    j,
                    self.parts@.len() as int,
                ) && r@[j].1 == part_image(
                    self.plan@,
                    self.parts@[j].first_sector as int,
                    self.parts@[j].end(),
                ).len(),
    {
        let mut r: Vec<(String, u64)> = Vec::new();
        if !self.sizing_done {
            return r;
        }
        let n: usize = self.parts.len();
        let mut j: usize = 0;
        while j < n
            invariant
                j <= n == self.parts@.len(),
                self.wf(),
                self.sizing_done,
                r@.len() == j,
                forall|i: int|
                    0 <= i < j ==> (#[trigger] r@[i]).0@ == output_name(
                        self.base_name@,
                        i,
                        n as int,
                    ) && r@[i].1 == part_image(
                        self.plan@,
                        self.parts@[i].first_sector as int,
                        self.parts@[i].end(),
                    ).len(),
            decreases n - j,
        {
            assert(self.parts@[j as int].matches(self.plan@));
            r.push(
                (output_name_for(self.base_name.as_str(), j as u64, n), self.parts[j].total_size),
            );
            j = j + 1;
        }
        r
    }
}

/// No part ends behind the image.
pub proof fn lemma_parts_end(parts: Seq<CciPart>, img: Seq<u8>, upto: int, j: int)
    requires
        parts_cover(parts, img, upto),
        0 <= j < parts.len(),
    ensures
        parts[j].end() <= upto,
        header_of_part(img, parts[j].first_sector as int, parts[j].end()).len() == 32,
    decreases parts.len() - j,
{
    crate::cci::format::header_round_trips(
        part_header(
            ((parts[j].end() - parts[j].first_sector) * 2048) as u64,
            slot_start(img, parts[j].first_sector as int, parts[j].end()) as u64,
        ),
        Seq::empty(),
    );
    if j < parts.len() - 1 {
        assert(part_start(parts, j + 1) == parts[j + 1].first_sector);
        lemma_parts_end(parts, img, upto, j + 1);
    }
}

/// Where the entry of a sector stands in the index.
pub proof fn lemma_index_entry(img: Seq<u8>, first: int, k: int, end: int)
    requires
        first <= k < end,
    ensures
        index_entries(img, first, end).len() == 4 * (end - first),
        field(index_entries(img, first, end), (k - first) * 4, 4) == le_bytes(
            entry(img, first, k) as nat,
            4,
        ),
    decreases end - first,
{
    lemma_index_len(img, first, end);
    lemma_index_len(img, first, end - 1);
    let all = index_entries(img, first, end);
    let prev = index_entries(img, first, end - 1);
    if k == end - 1 {
        assert(field(all, (k - first) * 4, 4) =~= le_bytes(entry(img, first, k) as nat, 4));
    } else {
        lemma_index_entry(img, first, k, end - 1);
        assert(field(all, (k - first) * 4, 4) =~= field(prev, (k - first) * 4, 4));
    }
}

/// Where the slot of a sector stands among the slots.
pub proof fn lemma_slot_at(img: Seq<u8>, first: int, k: int, end: int)
    requires
        first <= k < end,
    ensures
        slots(img, first, k).len() + slot(sector_at(img, k)).len() == slots(
            img,
            first,
            k + 1,
        ).len(),
        slots(img, first, k + 1).len() <= slots(img, first, end).len(),
        slots(img, first, end).subrange(
            slots(img, first, k).len() as int,
            slots(img, first, k + 1).len() as int,
        ) == slot(sector_at(img, k)),
    decreases end - first,
{
    let all = slots(img, first, end);
    let prev = slots(img, first, end - 1);
    let a = slots(img, first, k).len() as int;
    let b = slots(img, first, k + 1).len() as int;
    if k == end - 1 {
        assert(all.subrange(a, b) =~= slot(sector_at(img, k)));
    } else {
        lemma_slot_at(img, first, k, end - 1);
        assert(all.subrange(a, b) =~= prev.subrange(a, b));
    }
}

proof fn lemma_starts_grow(img: Seq<u8>, first: int, i: int, j: int)
    requires
        first <= i <= j,
    ensures
        slot_start(img, first, i) <= slot_start(img, first, j),
    decreases j - i,
{
    if i < j {
        lemma_starts_grow(img, first, i, j - 1);
    }
}

/// The index of a part as it reads.
proof fn lemma_table_reads(img: Seq<u8>, first: int, end: int)
    requires
        0 <= first <= end,
        end * 2048 <= img.len(),
        stays_below(img, first, end),
    ensures
        ({
            let x = part_index(index_table(img, first, end));
            &&& index_table(img, first, end).len() == 4 * (end - first + 1)
            &&& x.positions.len() == end - first + 1
            &&& x.compressed.len() == end - first
            &&& forall|i: int|
                0 <= i <= end - first ==> #[trigger] x.positions[i] == slot_start(
                    img,
                    first,
                    first + i,
                )
            &&& forall|i: int|
                0 <= i < end - first ==> #[trigger] x.compressed[i] == is_kept_compressed(
                    sector_at(img, first + i),
                )
            &&& non_decreasing(x.positions)
        }),
{
    let table = index_table(img, first, end);
    let start = slot_start(img, first, end);
    lemma_start_bound(img, first, end, end);
    lemma_index_len(img, first, end);
    let x = part_index(table);
    crate::bytes::lemma_pow256();
    assert forall|i: int| 0 <= i <= end - first implies #[trigger] x.positions[i] == slot_start(
        img,
        first,
        first + i,
    ) && (i < end - first ==> x.compressed[i] == is_kept_compressed(
        sector_at(img, first + i),
    )) by {
        lemma_starts_grow(img, first, first + i, end);
        lemma_slots(img, first, first + i, end);
        if i < end - first {
            lemma_index_entry(img, first, first + i, end);
            assert(field(table, i * 4, 4) =~= field(index_entries(img, first, end), i * 4, 4));
            crate::bytes::lemma_le_round_trip(entry(img, first, first + i) as nat, 4);
        } else {
            assert(field(table, i * 4, 4) =~= le_bytes((start / 4) as nat, 4));
            crate::bytes::lemma_le_round_trip((start / 4) as nat, 4);
        }
    }
    assert forall|i: int| 0 <= i < end - first implies #[trigger] x.compressed[i]
        == is_kept_compressed(sector_at(img, first + i)) by {
        assert(x.positions[i] == slot_start(img, first, first + i));
    }
    assert forall|i: int, j: int| 0 <= i <= j < x.positions.len() implies #[trigger] x.positions[i]
        <= #[trigger] x.positions[j] by {
        lemma_starts_grow(img, first, first + i, first + j);
    }
}

proof fn lemma_part_parses(img: Seq<u8>, first: int, end: int)
    requires
        0 <= first <= end,
        end * 2048 <= img.len(),
        end * 2048 <= u64::MAX,
        stays_below(img, first, end),
        4 * (end - first + 1) <= usize::MAX,
    ensures
        parse_part(part_image(img, first, end)) == Ok::<PartIndex, CciError>(
            part_index(index_table(img, first, end)),
        ),
{
    let b = part_image(img, first, end);
    let table = index_table(img, first, end);
    let start = slot_start(img, first, end);
    let h = part_header(((end - first) * 2048) as u64, start as u64);
    let rest = slots(img, first, end) + table;
    lemma_start_bound(img, first, end, end);
    lemma_table_reads(img, first, end);
    crate::cci::format::header_round_trips(h, rest);
    assert(b =~= header_bytes(h) + rest);
    assert(field(b, start, b.len() - start) =~= table);
    let x = part_index(table);
    assert(x.positions[end - first] == start);
}

/// A part that was written is read back: its index is accepted, and every sector comes out as
/// it went in.
pub proof fn part_reads_back(img: Seq<u8>, first: int, end: int)
    requires
        0 <= first <= end,
        end * 2048 <= img.len(),
        end * 2048 <= u64::MAX,
        stays_below(img, first, end),
        4 * (end - first + 1) <= usize::MAX,
        forall|i: int| first <= i < end ==> round_trips(#[trigger] sector_at(img, i)),
    ensures
        parse_part(part_image(img, first, end)) matches Ok(x) && {
            &&& x.compressed.len() == end - first
            &&& forall|i: int|
                0 <= i < end - first ==> #[trigger] part_sector(part_image(img, first, end), x, i)
                    == Ok::<Seq<u8>, CciError>(sector_at(img, first + i))
        },
{
    let b = part_image(img, first, end);
    let x = part_index(index_table(img, first, end));
    lemma_part_parses(img, first, end);
    lemma_table_reads(img, first, end);
    assert forall|i: int| 0 <= i < end - first implies #[trigger] part_sector(b, x, i) == Ok::<
        Seq<u8>,
        CciError,
    >(sector_at(img, first + i)) by {
        let k = first + i;
        lemma_slot_at(img, first, k, end);
        assert(x.positions[i] == slot_start(img, first, k));
        assert(x.positions[i + 1] == slot_start(img, first, first + (i + 1)));
        crate::cci::format::header_round_trips(
            part_header(((end - first) * 2048) as u64, slot_start(img, first, end) as u64),
            Seq::empty(),
        );
        assert(b.subrange(slot_start(img, first, k), slot_start(img, first, k + 1))
            =~= slots(img, first, end).subrange(
            slots(img, first, k).len() as int,
            slots(img, first, k + 1).len() as int,
        ));
        slot_lengths(sector_at(img, k));
        slot_round_trips(sector_at(img, k));
    }
}

} // verus!
