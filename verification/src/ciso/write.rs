//! Writing an image as `.cso` parts: a sizing pass that fixes the index and where parts end,
//! then the parts themselves.
use crate::bytes::{
    copy_range, field, lemma_round_up, put_slice, put_zeros, round_up, zeroed, zeros,
};
use crate::ciso::format::{
    body_decodes, compress_sector, cso_header_bytes, cso_serialize, frame_body, framed, index_bytes,
    is_kept_compressed, output_name, output_name_for, padded_part_size, serialize_index_table,
    stored, IndexTableEntry, FILE_SPLIT_POINT, HEADER_SIZE, SECTOR_SIZE, SIZING_BATCH_SECTORS,
};
use crate::ciso::read::{stored_at, stored_len, stored_sector, CisoError};
use crate::lz4::lz4_frame_decoded;
use crate::source::{ByteSource, ReadError};
use vstd::prelude::*;

verus! {

broadcast use crate::bytes::group_fields;

/// Sector `i` of an image.
pub open spec fn sector_at(img: Seq<u8>, i: int) -> Seq<u8> {
    img.subrange(i * 2048, i * 2048 + 2048)
}

/// What stands before the sectors of a part: in the first, header and index of `n` sectors.
pub open spec fn base_of(n: int, part: int) -> int {
    if part == 0 {
        24 + 4 * (n + 1)
    } else {
        0
    }
}

/// How many zeros align `at` to four.
pub open spec fn pad4(at: int) -> int {
    round_up(at, 4) - at
}

/// The stored sectors from `first` to before `end`, each aligned, after `base` bytes.
pub open spec fn body(img: Seq<u8>, base: int, first: int, end: int) -> Seq<u8>
    decreases end - first,
{
    if end <= first {
        Seq::empty()
    } else {
        let before = body(img, base, first, end - 1);
        before + zeros(pad4(base + before.len()) as nat) + stored(sector_at(img, end - 1))
    }
}

/// Where sector `k` is stored in a part that begins with sector `first` after `base` bytes.
pub open spec fn position(img: Seq<u8>, base: int, first: int, k: int) -> int {
    round_up(base + body(img, base, first, k).len(), 4)
}

/// The size of a part, padded.
pub open spec fn part_size(img: Seq<u8>, base: int, first: int, end: int) -> int {
    round_up(base + body(img, base, first, end).len(), 0x400)
}

/// A part that begins at `first` does not reach the split point before `end`.
pub open spec fn stays_below(img: Seq<u8>, base: int, first: int, end: int) -> bool {
    forall|k: int| first <= k < end ==> #[trigger] position(img, base, first, k) < FILE_SPLIT_POINT
}

/// One part: which sectors it holds, what stands before them, and its size.
pub struct CisoPart {
    pub base: u64,
    pub first_sector: u64,
    pub end_sector: u64,
    pub size: u64,
}

impl CisoPart {
    pub open spec fn matches(self, img: Seq<u8>, n: int, part: int) -> bool {
        &&& self.base == base_of(n, part)
        &&& self.first_sector <= self.end_sector
        &&& self.size == part_size(
            img,
            self.base as int,
            self.first_sector as int,
            self.end_sector as int,
        )
        &&& stays_below(
            img,
            self.base as int,
            self.first_sector as int,
            self.end_sector as int,
        )
    }

    /// The part has reached the split point.
    pub open spec fn is_full(self, img: Seq<u8>) -> bool {
        position(
            img,
            self.base as int,
            self.first_sector as int,
            self.end_sector as int,
        ) >= FILE_SPLIT_POINT
    }

    /// The stored sectors of the part.
    pub open spec fn data(self, img: Seq<u8>) -> Seq<u8> {
        body(img, self.base as int, self.first_sector as int, self.end_sector as int)
    }

    /// The bytes of the part, the first one with header and index.
    pub open spec fn image(self, img: Seq<u8>, part: int, head: Seq<u8>) -> Seq<u8> {
        (if part == 0 {
            head
        } else {
            Seq::empty()
        }) + self.data(img) + zeros((self.size - self.base - self.data(img).len()) as nat)
    }
}

/// Where part `j` starts: where the one before it ends.
pub open spec fn part_start(parts: Seq<CisoPart>, j: int) -> int {
    if j <= 0 {
        0
    } else {
        parts[j - 1].end_sector as int
    }
}

/// The parts follow each other up to sector `upto`, and each but the last is full.
pub open spec fn parts_cover(parts: Seq<CisoPart>, img: Seq<u8>, n: int, upto: int) -> bool {
    &&& forall|j: int| 0 <= j < parts.len() ==> (#[trigger] parts[j]).matches(img, n, j)
    &&& forall|j: int|
        0 <= j < parts.len() ==> #[trigger] part_start(parts, j) == parts[j].first_sector
    &&& forall|j: int| 0 <= j < parts.len() - 1 ==> (#[trigger] parts[j]).is_full(img)
    &&& upto == part_start(parts, parts.len() as int)
}

/// The index entry of sector `k`: its position in units of four, and whether it is compressed.
pub open spec fn is_entry(
    e: IndexTableEntry,
    img: Seq<u8>,
    base: int,
    first: int,
    k: int,
) -> bool {
    &&& e.pos() == position(img, base, first, k) / 4
    &&& e.is_compressed() == is_kept_compressed(sector_at(img, k))
}

/// Every sector of the parts has its entry.
pub open spec fn entries_match(
    table: Seq<IndexTableEntry>,
    parts: Seq<CisoPart>,
    img: Seq<u8>,
) -> bool {
    forall|j: int, k: int|
        0 <= j < parts.len() && parts[j].first_sector <= k < parts[j].end_sector
            ==> #[trigger] entry_of_part(table, parts[j], img, k)
}

pub open spec fn entry_of_part(
    table: Seq<IndexTableEntry>,
    part: CisoPart,
    img: Seq<u8>,
    k: int,
) -> bool {
    is_entry(table[k], img, part.base as int, part.first_sector as int, k)
}

pub proof fn lemma_stored_short(data: Seq<u8>)
    requires
        data.len() == 2048,
    ensures
        stored(data).len() <= 2048,
{
}

/// Where the part ends that begins with sector `first` after `base` bytes and is as far as sector
/// `k`: at the first sector that would start at or past the split point, or at the end of the
/// `n` sectors.
pub open spec fn part_end(img: Seq<u8>, base: int, first: int, k: int, n: int) -> int
    decreases n - k,
{
    if k >= n {
        n
    } else if position(img, base, first, k) >= FILE_SPLIT_POINT {
        k
    } else {
        part_end(img, base, first, k + 1, n)
    }
}

proof fn lemma_part_end(img: Seq<u8>, base: int, first: int, k: int, n: int)
    requires
        k <= n,
    ensures
        k <= part_end(img, base, first, k, n) <= n,
    decreases n - k,
{
    if k < n && position(img, base, first, k) < FILE_SPLIT_POINT {
        lemma_part_end(img, base, first, k + 1, n);
    }
}

/// A part that stays below the split point before `end`, and is full or the last there, ends
/// there.
pub proof fn lemma_part_ends_at(img: Seq<u8>, base: int, first: int, k: int, end: int, n: int)
    requires
        first <= k <= end <= n,
        stays_below(img, base, first, end),
        end == n || position(img, base, first, end) >= FILE_SPLIT_POINT,
    ensures
        part_end(img, base, first, k, n) == end,
    decreases end - k,
{
    if k < end {
        assert(position(img, base, first, k) < FILE_SPLIT_POINT);
        lemma_part_ends_at(img, base, first, k + 1, end, n);
    }
}

/// `b` holds the whole sectors of `a`, and may hold more.
pub open spec fn holds_on(a: Seq<u8>, b: Seq<u8>) -> bool {
    &&& a.len() % 2048 == 0
    &&& a.len() <= b.len()
    &&& b.take(a.len() as int) == a
}

/// What is made of the sectors of an image stays as it is when more come behind them.
pub proof fn lemma_holds_on(a: Seq<u8>, b: Seq<u8>, base: int, first: int, k: int)
    requires
        holds_on(a, b),
        0 <= first <= k,
        k * 2048 <= a.len(),
    ensures
        body(b, base, first, k) == body(a, base, first, k),
        position(b, base, first, k) == position(a, base, first, k),
        first < k ==> sector_at(b, k - 1) == sector_at(a, k - 1),
    decreases k - first,
{
    if first < k {
        lemma_holds_on(a, b, base, first, k - 1);
        assert(sector_at(b, k - 1) =~= sector_at(b.take(a.len() as int), k - 1));
    }
}

/// A part of an image stays its part when more sectors come behind it.
pub proof fn lemma_part_holds_on(a: Seq<u8>, b: Seq<u8>, p: CisoPart, n: int, j: int)
    requires
        holds_on(a, b),
        p.matches(a, n, j),
        p.end_sector * 2048 <= a.len(),
    ensures
        p.matches(b, n, j),
        p.data(b) == p.data(a),
        p.is_full(b) == p.is_full(a),
{
    let base = p.base as int;
    let first = p.first_sector as int;
    let end = p.end_sector as int;
    lemma_holds_on(a, b, base, first, end);
    assert forall|k: int| first <= k < end implies #[trigger] position(b, base, first, k)
        < FILE_SPLIT_POINT by {
        lemma_holds_on(a, b, base, first, k);
        assert(position(a, base, first, k) < FILE_SPLIT_POINT);
    }
}

/// All parts of an image stay its parts when more sectors come behind theirs.
pub proof fn lemma_parts_hold_on(
    parts: Seq<CisoPart>,
    a: Seq<u8>,
    b: Seq<u8>,
    n: int,
    upto: int,
)
    requires
        holds_on(a, b),
        parts_cover(parts, a, n, upto),
        upto * 2048 <= a.len(),
    ensures
        parts_cover(parts, b, n, upto),
        forall|j: int| 0 <= j < parts.len() ==> (#[trigger] parts[j]).is_full(b) == parts[j].is_full(a),
        forall|j: int| 0 <= j < parts.len() ==> (#[trigger] parts[j]).data(b) == parts[j].data(a),
{
    assert forall|j: int| 0 <= j < parts.len() implies (#[trigger] parts[j]).matches(b, n, j)
        && parts[j].is_full(b) == parts[j].is_full(a) && parts[j].data(b) == parts[j].data(a) by {
        assert(parts[j].matches(a, n, j));
        lemma_parts_end(parts, a, n, upto, j);
        lemma_part_holds_on(a, b, parts[j], n, j);
    }
    assert forall|j: int| 0 <= j < parts.len() - 1 implies (#[trigger] parts[j]).is_full(b) by {
        assert(parts[j].is_full(a));
    }
}

/// Every sector that was placed in one of the parts has its entry: `placed` says which of the
/// sized sectors `plan` it was last.
pub open spec fn placed_match(
    table: Seq<IndexTableEntry>,
    placed: Seq<int>,
    parts: Seq<CisoPart>,
    plan: Seq<u8>,
) -> bool {
    forall|j: int, s: int|
        0 <= j < parts.len() && 0 <= s < placed.len() && parts[j].first_sector <= placed[s]
            < parts[j].end_sector ==> #[trigger] placed_in_part(table, placed, parts[j], plan, s)
}

pub open spec fn placed_in_part(
    table: Seq<IndexTableEntry>,
    placed: Seq<int>,
    part: CisoPart,
    plan: Seq<u8>,
    s: int,
) -> bool {
    is_entry(table[s], plan, part.base as int, part.first_sector as int, placed[s])
}

#[derive(Clone, Copy, Debug, PartialEq, Eq, Structural)]
pub enum StreamStage {
    /// Header and index, in the first part.
    Header,
    /// The stored sectors of a part, and the zeros that end it.
    Sectors,
    /// Everything has gone out.
    Done,
}

/// Why a chunk cannot be had.
#[derive(Clone, Copy, Debug, PartialEq, Eq, Structural)]
pub enum CisoWriteError {
    /// Output was asked for before the sizing pass was over.
    SizingUnfinished,
    /// More sectors were sized than can be counted in 64 bits.
    TooManySectors,
    Read(ReadError),
}

impl CisoWriteError {
    pub open spec fn text(self) -> Seq<char> {
        match self {
            CisoWriteError::SizingUnfinished =>
                "ciso: next_chunk() called before hash_next_part() finished sizing"@,
            CisoWriteError::TooManySectors => "ciso: too many sectors"@,
            CisoWriteError::Read(_) => "ciso: read failed"@,
        }
    }

    pub fn message(&self) -> (r: &'static str)
        ensures
            r@ == self.text(),
    {
        match *self {
            CisoWriteError::SizingUnfinished =>
                "ciso: next_chunk() called before hash_next_part() finished sizing",
            CisoWriteError::TooManySectors => "ciso: too many sectors",
            CisoWriteError::Read(_) => "ciso: read failed",
        }
    }
}

/// Emits the parts of an image.
pub struct CisoSession<S: ByteSource> {
    pub source: S,
    pub total_data_sectors: u64,
    /// One entry per sector, and one that ends the last.
    pub index_table: Vec<IndexTableEntry>,
    pub sizing_next_sector: u64,
    /// How many sectors were sized.
    pub sizing_count: u64,
    pub sizing_part_base: u64,
    pub sizing_part_first: u64,
    /// How long the part that is being sized is so far.
    pub sizing_position: u64,
    pub sizing_done: bool,
    pub parts: Vec<CisoPart>,
    pub header_and_index: Vec<u8>,
    pub stream_part: usize,
    pub stream_stage: StreamStage,
    pub header_index_pos: usize,
    pub stream_next_sector: u64,
    /// How long the part that is being emitted is so far.
    pub stream_position: u64,
    pub base_name: String,
    pub current_entry_name: String,
    /// The sectors that were sized, back to back. A batch that fails half way is sized again from
    /// its first sector, behind those that were sized before it failed.
    pub plan: Ghost<Seq<u8>>,
    /// Which of the sized sectors each sector was last; negative if it was not sized yet.
    pub placed: Ghost<Seq<int>>,
    /// The first sector of the part that is being emitted.
    pub stream_first: Ghost<int>,
    /// What the session has got through of the current part: what was emitted, and what was
    /// dropped when a read failed behind it.
    pub written: Ghost<Seq<u8>>,
}

/// `r` is a session that is opened over the first sectors of an image.
pub open spec fn is_opened<S: ByteSource>(
    source: S,
    total_data_sectors: u64,
    base_name: String,
    r: CisoSession<S>,
) -> bool {
    &&& r.wf()
    &&& !r.sizing_done
    &&& r.sizing_next_sector == 0
    &&& r.plan@.len() == 0
    &&& r.placed@ == Seq::new(total_data_sectors as nat, |s: int| -1int)
    &&& r.is_clean()
    &&& r.source == source
    &&& r.total_data_sectors == total_data_sectors
    &&& r.base_name == base_name
    &&& r.current_entry_name@ == output_name(base_name@, 0, 1)
}

impl<S: ByteSource> CisoSession<S> {
    pub open spec fn img(&self) -> Seq<u8> {
        self.source.bytes()
    }

    pub open spec fn n(&self) -> int {
        self.total_data_sectors as int
    }

    /// How many sectors were sized.
    pub open spec fn sized(&self) -> int {
        self.plan@.len() as int / 2048
    }

    /// What was sized is the image, sector by sector: no read failed on the way.
    pub open spec fn is_clean(&self) -> bool {
        &&& self.plan@ == self.img().take(self.sizing_next_sector * 2048)
        &&& forall|s: int| 0 <= s < self.sizing_next_sector ==> #[trigger] self.placed@[s] == s
    }

    /// What was sized is known, and the index has room for it.
    pub open spec fn plan_wf(&self) -> bool {
        &&& self.source.valid()
        &&& self.sizing_next_sector * 2048 <= self.img().len()
        &&& self.sizing_next_sector <= self.n()
        &&& self.total_data_sectors * 2048 + 0x1000 <= u64::MAX
        &&& self.index_table@.len() == self.n() + 1
        &&& self.plan@.len() % 2048 == 0
        &&& self.sizing_count == self.sized()
        &&& self.n() == 0 ==> self.sized() == 0
        &&& self.placed@.len() == self.n()
        &&& forall|s: int| 0 <= s < self.n() ==> #[trigger] self.placed@[s] < self.sized()
        &&& forall|i: int|
            0 <= i < self.sized() ==> body_decodes(#[trigger] sector_at(self.plan@, i))
    }

    /// The sizing pass is on course, if it is not over its last sector.
    pub open spec fn sizing_wf(&self) -> bool {
        let plan = self.plan@;
        let base = self.sizing_part_base as int;
        let first = self.sizing_part_first as int;
        &&& self.plan_wf()
        &&& !self.sizing_done
        &&& parts_cover(self.parts@, plan, self.n(), first)
        &&& forall|j: int| 0 <= j < self.parts@.len() ==> (#[trigger] self.parts@[j]).is_full(plan)
        &&& base == base_of(self.n(), self.parts@.len() as int)
        &&& first <= self.sized()
        &&& self.sizing_position == base + body(plan, base, first, self.sized()).len()
        &&& stays_below(plan, base, first, self.sized())
        &&& placed_match(self.index_table@, self.placed@, self.parts@, plan)
        &&& forall|s: int|
            0 <= s < self.n() && first <= #[trigger] self.placed@[s] ==> is_entry(
                self.index_table@[s],
                plan,
                base,
                first,
                self.placed@[s],
            )
        &&& self.index_table@[self.n()].raw == 0
    }

    /// The header and index that begin the first part.
    pub open spec fn head(&self) -> Seq<u8> {
        cso_header_bytes((self.total_data_sectors * 2048) as u64) + index_bytes(
            self.index_table@,
            self.index_table@.len() as int,
        )
    }

    /// What stands before the sectors of the part that is being emitted.
    pub open spec fn lead(&self) -> Seq<u8> {
        if self.stream_part == 0 {
            self.head()
        } else {
            Seq::empty()
        }
    }

    /// How long that is.
    pub open spec fn base(&self) -> int {
        base_of(self.n(), self.stream_part as int)
    }

    /// The part that is being emitted, up to sector `k`.
    pub open spec fn upto(&self, k: int) -> Seq<u8> {
        self.lead() + body(self.img(), self.base(), self.stream_first@, k)
    }

    /// Where sector `k` is stored in the part that is being emitted.
    pub open spec fn stored_where(&self, k: int) -> int {
        position(self.img(), self.base(), self.stream_first@, k)
    }

    /// Where the part that is being emitted ends.
    pub open spec fn streamed_end(&self) -> int {
        part_end(self.img(), self.base(), self.stream_first@, self.stream_first@, self.n())
    }

    /// The bytes of the part that is being emitted.
    pub open spec fn streamed_image(&self) -> Seq<u8> {
        let all = self.upto(self.streamed_end());
        all + zeros((round_up(all.len() as int, 0x400) - all.len()) as nat)
    }

    /// The streaming pass is on course: what the session has got through is the start of the
    /// current part.
    pub open spec fn streaming_wf(&self) -> bool {
        let img = self.img();
        let n = self.n();
        let next = self.stream_next_sector as int;
        &&& self.parts@.len() >= 1
        &&& parts_cover(self.parts@, self.plan@, n, self.sized())
        &&& self.parts@.last().first_sector < self.sized() || self.sized() == 0
        &&& placed_match(self.index_table@, self.placed@, self.parts@, self.plan@)
        &&& self.index_table@[n].pos() == (self.parts@.last().base + self.parts@.last().data(
            self.plan@,
        ).len()) / 4
        &&& !self.index_table@[n].is_compressed()
        &&& self.header_and_index@ == self.head()
        &&& 0 <= self.stream_first@ <= next <= n
        &&& self.stream_part <= self.stream_first@ + 1
        &&& match self.stream_stage {
            StreamStage::Header => {
                &&& self.stream_part == 0
                &&& next == 0
                &&& self.header_index_pos < self.head().len()
                &&& self.written@ == self.head().take(self.header_index_pos as int)
            },
            StreamStage::Sectors => {
                &&& self.lead().len() == self.base()
                &&& stays_below(img, self.base(), self.stream_first@, next)
                &&& self.stream_position == self.written@.len()
                &&& self.stream_part > 0 ==> self.stream_first@ < n
                &&& self.written@ == self.upto(next) || (next < n && self.stored_where(next)
                    < FILE_SPLIT_POINT && self.written@ == self.padded_upto(next))
            },
            StreamStage::Done => next == n && self.written@.len() == 0,
        }
    }

    /// The part that is being emitted, up to where sector `k` is stored.
    pub open spec fn padded_upto(&self, k: int) -> Seq<u8> {
        let all = self.upto(k);
        all + zeros(pad4(all.len() as int) as nat)
    }

    pub open spec fn wf(&self) -> bool {
        &&& self.plan_wf()
        &&& !self.sizing_done ==> self.sizing_wf() && (self.sizing_next_sector < self.n()
            || self.n() == 0)
        &&& self.sizing_done ==> self.streaming_wf() && self.sizing_next_sector
            == self.total_data_sectors
    }

    /// A read of sector `k` may fail: the source is not reliable, or ends before it does.
    pub open spec fn may_fail_at(&self, k: int) -> bool {
        !self.source.reliable() || (k + 1) * 2048 > self.img().len()
    }

    /// The same image is being written under the same name.
    pub open spec fn same_image(&self, other: &Self) -> bool {
        &&& self.source.bytes() == other.source.bytes()
        &&& self.source.reliable() == other.source.reliable()
        &&& self.total_data_sectors == other.total_data_sectors
        &&& self.base_name == other.base_name
    }

    /// A session for the first `total_data_sectors` sectors of `source`.
    pub fn open(source: S, total_data_sectors: u64, base_name: String) -> (r: CisoSession<S>)
        requires
            source.valid(),
            total_data_sectors * 2048 + 0x1000 <= u64::MAX,
            total_data_sectors < usize::MAX,
        ensures
            is_opened(source, total_data_sectors, base_name, r),
    {
        let current_entry_name = output_name_for(base_name.as_str(), 0, 1);
        let mut index_table: Vec<IndexTableEntry> = Vec::new();
        let mut i: u64 = 0;
        while i < total_data_sectors + 1
            invariant
                i <= total_data_sectors + 1 <= u64::MAX,
                index_table@.len() == i,
                forall|k: int| 0 <= k < i ==> (#[trigger] index_table@[k]).raw == 0,
            decreases total_data_sectors + 1 - i,
        {
            index_table.push(IndexTableEntry::new(0, false));
            i = i + 1;
        }
        let base: u64 = HEADER_SIZE + 4 * (total_data_sectors + 1);
        assert(source.bytes().take(0) =~= Seq::empty());
        CisoSession {
            source,
            total_data_sectors,
            index_table,
            sizing_next_sector: 0,
            sizing_count: 0,
            sizing_part_base: base,
            sizing_part_first: 0,
            sizing_position: base,
            sizing_done: false,
            parts: Vec::new(),
            header_and_index: Vec::new(),
            stream_part: 0,
            stream_stage: StreamStage::Header,
            header_index_pos: 0,
            stream_next_sector: 0,
            stream_position: 0,
            base_name,
            current_entry_name,
            plan: Ghost(Seq::empty()),
            placed: Ghost(Seq::new(total_data_sectors as nat, |s: int| -1int)),
            stream_first: Ghost(0),
            written: Ghost(Seq::empty()),
        }
    }

    /// How many zeros align `position` to four.
    fn align_padding(position: u64) -> (r: u64)
        ensures
            r == pad4(position as int),
            r < 4,
    {
        proof {
            lemma_round_up(position as int);
        }
        (4 - position % 4) % 4
    }

    fn read_sector(&mut self, sector: u64) -> (r: Result<Vec<u8>, ReadError>)
        requires
            old(self).wf(),
            sector < old(self).total_data_sectors,
        ensures
            final(self).wf(),
            final(self).same_image(old(self)),
            *final(self) == (CisoSession { source: final(self).source, ..*old(self) }),
            r matches Ok(v) ==> v@ == sector_at(old(self).img(), sector as int),
            r is Ok ==> (sector + 1) * 2048 <= old(self).img().len(),
            r is Err ==> old(self).may_fail_at(sector as int),
    {
        self.source.read_at(sector * SECTOR_SIZE, 2048)
    }

    /// Closes the part that is being sized; what comes next starts a new one.
    fn finish_sizing_part(&mut self)
        requires
            old(self).sizing_wf(),
        ensures
            final(self).same_image(old(self)),
            final(self).source == old(self).source,
            *final(self) == (CisoSession {
                parts: final(self).parts,
                sizing_part_first: old(self).sizing_count,
                sizing_part_base: 0,
                sizing_position: 0,
                ..*old(self)
            }),
            final(self).parts@.len() == old(self).parts@.len() + 1,
            forall|j: int|
                0 <= j < old(self).parts@.len() ==> #[trigger] final(self).parts@[j] == old(
                    self,
                ).parts@[j],
            final(self).parts@.last().base == old(self).sizing_part_base,
            final(self).parts@.last().first_sector == old(self).sizing_part_first,
            final(self).parts@.last().end_sector == old(self).sized(),
            parts_cover(final(self).parts@, old(self).plan@, old(self).n(), old(self).sized()),
            placed_match(
                final(self).index_table@,
                final(self).placed@,
                final(self).parts@,
                old(self).plan@,
            ),
    {
        let ghost img = self.plan@;
        let ghost n = self.n();
        proof {
            lemma_position_bound(
                img,
                self.sizing_part_base as int,
                self.sizing_part_first as int,
                self.sized(),
                self.sized(),
            );
        }
        let part = CisoPart {
            base: self.sizing_part_base,
            first_sector: self.sizing_part_first,
            end_sector: self.sizing_count,
            size: padded_part_size(self.sizing_position),
        };
        let ghost before = self.parts@;
        self.parts.push(part);
        self.sizing_part_first = self.sizing_count;
        self.sizing_part_base = 0;
        self.sizing_position = 0;
        proof {
            let parts = self.parts@;
            assert forall|j: int| 0 <= j < parts.len() implies (#[trigger] parts[j]).matches(
                img,
                n,
                j,
            ) by {
                if j < before.len() {
                    assert(parts[j] == before[j]);
                }
            }
            assert forall|j: int| 0 <= j < parts.len() implies #[trigger] part_start(parts, j)
                == parts[j].first_sector by {
                if j < before.len() {
                    assert(parts[j] == before[j]);
                    assert(part_start(before, j) == before[j].first_sector);
                    if j > 0 {
                        assert(parts[j - 1] == before[j - 1]);
                    }
                } else if j > 0 {
                    assert(parts[j - 1] == before[j - 1]);
                }
            }
            assert forall|j: int| 0 <= j < parts.len() - 1 implies (#[trigger] parts[j]).is_full(
                img,
            ) by {
                assert(parts[j] == before[j]);
            }
            assert forall|j: int, s: int|
                0 <= j < parts.len() && 0 <= s < self.placed@.len() && parts[j].first_sector
                    <= self.placed@[s] < parts[j].end_sector implies #[trigger] placed_in_part(
                self.index_table@,
                self.placed@,
                parts[j],
                img,
                s,
            ) by {
                if j < before.len() {
                    assert(parts[j] == before[j]);
                    assert(placed_in_part(
                        self.index_table@,
                        self.placed@,
                        before[j],
                        img,
                        s,
                    ));
                } else {
                    assert(is_entry(
                        self.index_table@[s],
                        img,
                        part.base as int,
                        part.first_sector as int,
                        self.placed@[s],
                    ));
                }
            }
        }
    }
}

/// A part that has not reached the split point before is at most a sector past it.
pub proof fn lemma_position_bound(img: Seq<u8>, base: int, first: int, end: int, n: int)
    requires
        0 <= first <= end <= n,
        n * 2048 <= img.len(),
        0 <= base,
        stays_below(img, base, first, end),
    ensures
        base + body(img, base, first, end).len() <= (if base < FILE_SPLIT_POINT {
            FILE_SPLIT_POINT as int
        } else {
            base
        }) + 2048,
{
    if first < end {
        assert(position(img, base, first, end - 1) < FILE_SPLIT_POINT);
        lemma_stored_short(sector_at(img, end - 1));
    }
}

/// The sectors of session `a` from the next one that is to be sized to before sector `k`, behind
/// those that were sized.
pub open spec fn plan_upto<S: ByteSource>(a: CisoSession<S>, k: int) -> Seq<u8> {
    a.plan@ + a.img().subrange(a.sizing_next_sector * 2048, k * 2048)
}

/// Which of the sized sectors each sector is then.
pub open spec fn placed_upto<S: ByteSource>(a: CisoSession<S>, k: int) -> Seq<int> {
    Seq::new(
        a.placed@.len(),
        |s: int|
            if a.sizing_next_sector <= s < k {
                a.sized() + s - a.sizing_next_sector
            } else {
                a.placed@[s]
            },
    )
}

/// Where the batch ends that is sized next.
pub open spec fn batch_end<S: ByteSource>(a: CisoSession<S>) -> int {
    if a.total_data_sectors - a.sizing_next_sector <= 256 {
        a.total_data_sectors as int
    } else {
        a.sizing_next_sector + 256
    }
}

/// The sizing of session `a` stopped at sector `k` and made session `b` of it: what was sized of
/// the batch stays, and the batch is still to come.
pub open spec fn stopped_at<S: ByteSource>(a: CisoSession<S>, b: CisoSession<S>, k: int) -> bool {
    &&& a.sizing_next_sector <= k < batch_end(a)
    &&& k * 2048 <= a.img().len()
    &&& b.plan@ == plan_upto(a, k)
    &&& b.placed@ == placed_upto(a, k)
    &&& b.sizing_next_sector == a.sizing_next_sector
}

/// What one step of preparation makes of session `a`: session `b` and the result `r`.
pub open spec fn hash_step<S: ByteSource>(
    a: CisoSession<S>,
    b: CisoSession<S>,
    r: Result<bool, CisoWriteError>,
) -> bool {
    &&& b.wf()
    &&& b.same_image(&a)
    &&& match r {
        Ok(done) => {
            &&& done == b.sizing_done
            &&& a.sizing_done ==> done && b == a
            &&& !a.sizing_done ==> {
                &&& b.sizing_next_sector == batch_end(a)
                &&& batch_end(a) * 2048 <= a.img().len()
                &&& b.plan@ == plan_upto(a, batch_end(a))
                &&& b.placed@ == placed_upto(a, batch_end(a))
                &&& done == (b.sizing_next_sector == a.total_data_sectors)
            }
            &&& !a.sizing_done && done ==> {
                &&& b.stream_part == 0
                &&& b.stream_stage == StreamStage::Header
                &&& b.stream_first@ == 0
                &&& b.stream_next_sector == 0
                &&& b.written@.len() == 0
                &&& b.current_entry_name@ == output_name(a.base_name@, 0, b.parts@.len() as int)
            }
            &&& !done ==> b.current_entry_name == a.current_entry_name
        },
        Err(e) => {
            &&& !a.sizing_done && !b.sizing_done
            &&& b.current_entry_name == a.current_entry_name
            &&& match e {
                CisoWriteError::Read(_) => exists|k: int| #[trigger]
                    stopped_at(a, b, k) && a.may_fail_at(k),
                CisoWriteError::TooManySectors => exists|k: int| #[trigger]
                    stopped_at(a, b, k) && b.plan@.len() == u64::MAX * 2048,
                CisoWriteError::SizingUnfinished => false,
            }
        },
    }
}

impl<S: ByteSource> CisoSession<S> {
    /// Sizes a sector behind those that were sized. A part that has reached the split point is
    /// closed first.
    fn size_sector(&mut self, sector: u64) -> (r: Result<(), CisoWriteError>)
        requires
            old(self).sizing_wf(),
            sector < old(self).total_data_sectors,
        ensures
            final(self).sizing_wf(),
            final(self).same_image(old(self)),
            final(self).sizing_next_sector == old(self).sizing_next_sector,
            final(self).current_entry_name == old(self).current_entry_name,
            match r {
                Ok(_) => {
                    &&& (sector + 1) * 2048 <= old(self).img().len()
                    &&& final(self).plan@ == old(self).plan@ + sector_at(
                        old(self).img(),
                        sector as int,
                    )
                    &&& final(self).placed@ == old(self).placed@.update(
                        sector as int,
                        old(self).sized(),
                    )
                    &&& final(self).sizing_part_first < final(self).sized()
                },
                Err(e) => {
                    &&& final(self).plan == old(self).plan
                    &&& final(self).placed == old(self).placed
                    &&& match e {
                        CisoWriteError::Read(_) => old(self).may_fail_at(sector as int),
                        CisoWriteError::TooManySectors => old(self).sized() == u64::MAX,
                        CisoWriteError::SizingUnfinished => false,
                    }
                },
            },
    {
        self.split_if_full();
        let data = match self.source.read_at(sector * SECTOR_SIZE, 2048) {
            Ok(v) => v,
            Err(e) => {
                return Err(CisoWriteError::Read(e));
            },
        };
        if self.sizing_count == 0xFFFF_FFFF_FFFF_FFFF {
            return Err(CisoWriteError::TooManySectors);
        }
        self.place_sector(sector, &data);
        Ok(())
    }

    /// Notes where a sector is stored, behind those that were sized.
    #[verifier::rlimit(80)]
    fn place_sector(&mut self, sector: u64, data: &Vec<u8>)
        requires
            old(self).sizing_wf(),
            sector < old(self).total_data_sectors,
            data@.len() == 2048,
            old(self).sizing_count < u64::MAX,
            position(
                old(self).plan@,
                old(self).sizing_part_base as int,
                old(self).sizing_part_first as int,
                old(self).sized(),
            ) < FILE_SPLIT_POINT,
        ensures
            final(self).sizing_wf(),
            final(self).same_image(old(self)),
            final(self).sizing_next_sector == old(self).sizing_next_sector,
            final(self).current_entry_name == old(self).current_entry_name,
            final(self).plan@ == old(self).plan@ + data@,
            final(self).placed@ == old(self).placed@.update(sector as int, old(self).sized()),
            final(self).sizing_part_first < final(self).sized(),
    {
        let ghost was = self.plan@;
        let ghost plan = was + data@;
        let ghost slot = self.sized();
        let (out, is_compressed) = compress_sector(data.as_slice());
        let ghost base = self.sizing_part_base as int;
        let ghost first = self.sizing_part_first as int;
        let ghost table = self.index_table@;
        let ghost placed = self.placed@;
        proof {
            lemma_stored_short(data@);
            assert(plan.take(was.len() as int) =~= was);
            assert(sector_at(plan, slot) =~= data@);
            lemma_parts_hold_on(self.parts@, was, plan, self.n(), first);
            lemma_holds_on(was, plan, base, first, slot);
        }
        let at: u64 = self.sizing_position + Self::align_padding(self.sizing_position);
        let entry = IndexTableEntry::new((at / 4) as u32, is_compressed);
        let entries: usize = self.index_table.len();
        assert(sector < entries);
        self.index_table.set(sector as usize, entry);
        self.sizing_position = at + out.len() as u64;
        self.sizing_count = self.sizing_count + 1;
        proof {
            self.plan@ = plan;
            self.placed@ = placed.update(sector as int, slot);
            let now = self.index_table@;
            let places = self.placed@;
            assert(self.sized() == slot + 1);
            assert forall|j: int, s: int|
                0 <= j < self.parts@.len() && 0 <= s < places.len() && self.parts@[j].first_sector
                    <= places[s] < self.parts@[j].end_sector implies #[trigger] placed_in_part(
                now,
                places,
                self.parts@[j],
                plan,
                s,
            ) by {
                let p = self.parts@[j];
                lemma_parts_end(self.parts@, was, self.n(), first, j);
                assert(s != sector);
                assert(placed_in_part(table, placed, p, was, s));
                lemma_holds_on(was, plan, p.base as int, p.first_sector as int, places[s]);
                lemma_holds_on(was, plan, p.base as int, p.first_sector as int, places[s] + 1);
            }
            assert forall|s: int| 0 <= s < self.n() && first <= #[trigger] places[s] implies is_entry(
                now[s],
                plan,
                base,
                first,
                places[s],
            ) by {
                if s != sector {
                    assert(places[s] == placed[s]);
                    lemma_holds_on(was, plan, base, first, places[s]);
                    lemma_holds_on(was, plan, base, first, places[s] + 1);
                }
            }
            assert forall|k: int| first <= k < slot + 1 implies #[trigger] position(
                plan,
                base,
                first,
                k,
            ) < FILE_SPLIT_POINT by {
                lemma_holds_on(was, plan, base, first, k);
                assert(position(was, base, first, k) < FILE_SPLIT_POINT);
            }
            assert forall|i: int| 0 <= i < slot + 1 implies body_decodes(
                #[trigger] sector_at(plan, i),
            ) by {
                if i < slot {
                    lemma_holds_on(was, plan, base, i, i + 1);
                    assert(body_decodes(sector_at(was, i)));
                }
            }
        }
    }

    /// Closes the part that is being sized if the next sector would start at or past the split
    /// point.
    fn split_if_full(&mut self)
        requires
            old(self).sizing_wf(),
        ensures
            final(self).sizing_wf(),
            final(self).same_image(old(self)),
            final(self).source == old(self).source,
            final(self).sizing_next_sector == old(self).sizing_next_sector,
            final(self).current_entry_name == old(self).current_entry_name,
            final(self).plan == old(self).plan,
            final(self).placed == old(self).placed,
            position(
                old(self).plan@,
                final(self).sizing_part_base as int,
                final(self).sizing_part_first as int,
                old(self).sized(),
            ) < FILE_SPLIT_POINT,
    {
        let ghost img = self.plan@;
        let ghost next = self.sized();
        proof {
            lemma_position_bound(
                img,
                self.sizing_part_base as int,
                self.sizing_part_first as int,
                next,
                next,
            );
        }
        if self.sizing_position + Self::align_padding(self.sizing_position) >= FILE_SPLIT_POINT {
            let ghost before = *self;
            self.finish_sizing_part();
            proof {
                let parts = self.parts@;
                assert forall|j: int| 0 <= j < parts.len() implies (#[trigger] parts[j]).is_full(
                    img,
                ) by {
                    if j < before.parts@.len() {
                        assert(parts[j] == before.parts@[j]);
                    }
                }
                assert(body(img, 0, next, next) =~= Seq::empty());
            }
        }
    }

    /// Sizes the next batch of sectors; true once index and parts are fixed.
    pub fn hash_next_part(&mut self) -> (r: Result<bool, CisoWriteError>)
        requires
            old(self).wf(),
        ensures
            hash_step(*old(self), *final(self), r),
    {
        if self.sizing_done {
            return Ok(true);
        }
        let start: u64 = self.sizing_next_sector;
        let total: u64 = self.total_data_sectors;
        let end: u64 = if total - start <= SIZING_BATCH_SECTORS {
            total
        } else {
            start + SIZING_BATCH_SECTORS
        };
        let ghost img = self.img();
        let mut sector: u64 = start;
        proof {
            assert(self.plan@ + img.subrange(start * 2048, start * 2048) =~= self.plan@);
            assert(placed_upto(*self, start as int) =~= self.placed@);
        }
        while sector < end
            invariant
                self.sizing_wf(),
                self.same_image(old(self)),
                img == self.img(),
                total == self.total_data_sectors,
                start == old(self).sizing_next_sector,
                start == self.sizing_next_sector,
                start < total || total == 0,
                end == batch_end(*old(self)),
                start <= sector <= end <= total,
                sector * 2048 <= img.len(),
                self.plan@ == plan_upto(*old(self), sector as int),
                self.placed@ == placed_upto(*old(self), sector as int),
                self.current_entry_name == old(self).current_entry_name,
                !old(self).sizing_done,
                old(self).wf(),
                sector > start ==> self.sizing_part_first < self.sized(),
            decreases end - sector,
        {
            let ghost before = self.plan@;
            let ghost places = self.placed@;
            if let Err(e) = self.size_sector(sector) {
                assert(stopped_at(*old(self), *self, sector as int));
                return Err(e);
            }
            proof {
                assert(before.len() == old(self).plan@.len() + (sector - start) * 2048);
                assert(before + sector_at(img, sector as int) =~= plan_upto(
                    *old(self),
                    sector + 1,
                ));
                assert(self.placed@ =~= placed_upto(*old(self), sector + 1));
            }
            sector = sector + 1;
        }
        self.sizing_next_sector = end;
        if end < total {
            return Ok(false);
        }
        self.finish_sizing();
        Ok(true)
    }

    /// Closes the last part, ends the index and gets ready to stream.
    #[verifier::rlimit(60)]
    fn finish_sizing(&mut self)
        requires
            old(self).sizing_wf(),
            old(self).sizing_next_sector == old(self).total_data_sectors,
            old(self).sizing_part_first < old(self).sized() || old(self).n() == 0,
        ensures
            final(self).wf(),
            final(self).same_image(old(self)),
            final(self).plan == old(self).plan,
            final(self).placed == old(self).placed,
            final(self).sizing_done,
            final(self).sizing_next_sector == old(self).sizing_next_sector,
            final(self).stream_part == 0,
            final(self).stream_stage == StreamStage::Header,
            final(self).stream_first@ == 0,
            final(self).stream_next_sector == 0,
            final(self).written@.len() == 0,
            final(self).current_entry_name@ == output_name(
                old(self).base_name@,
                0,
                final(self).parts@.len() as int,
            ),
    {
        let ghost plan = self.plan@;
        let ghost n = self.n();
        let total: u64 = self.total_data_sectors;
        let last_position: u64 = self.sizing_position;
        let ghost base = self.sizing_part_base as int;
        let ghost first = self.sizing_part_first as int;
        proof {
            lemma_position_bound(plan, base, first, self.sized(), self.sized());
            if first < self.sized() {
                assert(position(plan, base, first, first) < FILE_SPLIT_POINT);
            }
        }
        self.finish_sizing_part();
        let ghost table = self.index_table@;
        let entries: usize = self.index_table.len();
        assert(total < entries);
        self.index_table.set(
            total as usize,
            IndexTableEntry::new((last_position / 4) as u32, false),
        );
        let head = cso_serialize(total * SECTOR_SIZE);
        let index = serialize_index_table(self.index_table.as_slice());
        let mut header_and_index: Vec<u8> = Vec::new();
        put_slice(&mut header_and_index, head.as_slice());
        put_slice(&mut header_and_index, index.as_slice());
        self.header_and_index = header_and_index;
        self.stream_part = 0;
        self.stream_stage = StreamStage::Header;
        self.stream_next_sector = 0;
        self.header_index_pos = 0;
        self.current_entry_name = output_name_for(self.base_name.as_str(), 0, self.parts.len());
        self.sizing_done = true;
        proof {
            self.written@ = Seq::empty();
            self.stream_first@ = 0;
            assert(self.header_and_index@ =~= self.head());
            crate::ciso::format::lemma_index_len(
                self.index_table@,
                self.index_table@.len() as int,
            );
            crate::ciso::format::cso_header_round_trips((total * 2048) as u64);
            assert(self.head().take(0) =~= Seq::empty());
            let now = self.index_table@;
            assert forall|j: int, s: int|
                0 <= j < self.parts@.len() && 0 <= s < self.placed@.len()
                    && self.parts@[j].first_sector <= self.placed@[s]
                    < self.parts@[j].end_sector implies #[trigger] placed_in_part(
                now,
                self.placed@,
                self.parts@[j],
                plan,
                s,
            ) by {
                assert(placed_in_part(table, self.placed@, self.parts@[j], plan, s));
            }
            assert(self.parts@[0].matches(plan, n, 0));
        }
    }
}

pub proof fn lemma_parts_end(parts: Seq<CisoPart>, img: Seq<u8>, n: int, upto: int, j: int)
    requires
        parts_cover(parts, img, n, upto),
        0 <= j < parts.len(),
    ensures
        parts[j].end_sector <= upto,
    decreases parts.len() - j,
{
    assert(part_start(parts, j + 1) == parts[j].end_sector);
    if j < parts.len() - 1 {
        assert(part_start(parts, j + 1) == parts[j + 1].first_sector);
        assert(parts[j + 1].matches(img, n, j + 1));
        lemma_parts_end(parts, img, n, upto, j + 1);
    }
}

/// What a call for the next piece of the output makes of session `a`: session `b` and the
/// result `r`.
pub open spec fn chunk_step<S: ByteSource>(
    a: CisoSession<S>,
    b: CisoSession<S>,
    max_bytes: usize,
    r: Result<Option<Vec<u8>>, CisoWriteError>,
) -> bool {
    &&& b.wf()
    &&& b.same_image(&a)
    &&& b.sizing_done == a.sizing_done
    &&& b.parts == a.parts
    &&& b.plan == a.plan
    &&& b.placed == a.placed
    &&& b.index_table == a.index_table
    &&& r == Err::<Option<Vec<u8>>, CisoWriteError>(CisoWriteError::SizingUnfinished)
        <==> !a.sizing_done
    &&& !a.sizing_done ==> b == a
    &&& a.sizing_done ==> match r {
        Ok(None) => a.stream_stage == StreamStage::Done && b == a,
        Ok(Some(c)) => {
            &&& a.stream_stage != StreamStage::Done
            &&& b.current_entry_name@ == output_name(
                a.base_name@,
                a.stream_part as int,
                a.parts@.len() as int,
            )
            &&& c@.len() >= max_bytes || a.is_seam(
                (a.written@.len() + c@.len()) as int,
            )
            &&& if a.stream_stage == StreamStage::Header {
                &&& c@.len() <= max_bytes
                &&& max_bytes > 0 ==> c@.len() > 0
            } else if a.stream_next_sector < a.streamed_end() {
                &&& c@.len() <= max_bytes + 2050
                &&& max_bytes > 0 ==> c@.len() > 0
            } else {
                c@.len() < 1024
            }
            &&& if b.stream_part == a.stream_part {
                &&& b.stream_first == a.stream_first
                &&& b.stream_stage == StreamStage::Sectors || b.stream_stage == a.stream_stage
                &&& b.written@ == a.written@ + c@
            } else {
                &&& b.stream_part == a.stream_part + 1
                &&& b.stream_first@ == a.streamed_end()
                &&& b.stream_next_sector == a.streamed_end()
                &&& b.stream_stage == (if a.streamed_end() == a.n() {
                    StreamStage::Done
                } else {
                    StreamStage::Sectors
                })
                &&& b.written@.len() == 0
                &&& a.written@ + c@ == a.streamed_image()
            }
        },
        Err(e) => {
            &&& e is Read
            &&& a.stream_stage == StreamStage::Sectors
            &&& b.stream_stage == StreamStage::Sectors
            &&& b.stream_part == a.stream_part
            &&& b.stream_first == a.stream_first
            &&& a.stream_next_sector <= b.stream_next_sector < a.streamed_end()
            &&& a.may_fail_at(b.stream_next_sector as int)
            &&& b.written@ == a.padded_upto(b.stream_next_sector as int)
            &&& b.current_entry_name@ == output_name(
                a.base_name@,
                a.stream_part as int,
                a.parts@.len() as int,
            )
        },
    }
}

impl<S: ByteSource> CisoSession<S> {
    /// The next stored sectors of the part, until `max_bytes` are reached or the part ends.
    #[verifier::rlimit(60)]
    fn next_sectors(&mut self, max_bytes: usize) -> (r: Result<Vec<u8>, ReadError>)
        requires
            old(self).wf(),
            old(self).sizing_done,
            old(self).stream_stage == StreamStage::Sectors,
            old(self).stream_next_sector < old(self).total_data_sectors,
            old(self).stored_where(old(self).stream_next_sector as int) < FILE_SPLIT_POINT,
        ensures
            final(self).wf(),
            final(self).same_image(old(self)),
            *final(self) == (CisoSession {
                source: final(self).source,
                stream_next_sector: final(self).stream_next_sector,
                stream_position: final(self).stream_position,
                written: final(self).written,
                ..*old(self)
            }),
            match r {
                Ok(v) => {
                    &&& final(self).written@ == old(self).written@ + v@
                    &&& v@.len() >= max_bytes || (final(self).stream_next_sector == old(
                        self,
                    ).streamed_end() && final(self).written@ == old(self).upto(
                        old(self).streamed_end(),
                    ))
                    &&& v@.len() <= max_bytes + 2050
                    &&& max_bytes > 0 ==> v@.len() > 0
                },
                Err(_) => {
                    let next = final(self).stream_next_sector as int;
                    &&& old(self).stream_next_sector <= next < old(self).streamed_end()
                    &&& old(self).may_fail_at(next)
                    &&& final(self).written@ == old(self).padded_upto(next)
                },
            },
    {
        let ghost img = self.img();
        let ghost n = self.n();
        let ghost base = self.base();
        let ghost first = self.stream_first@;
        let ghost lead = self.lead();
        let ghost end = self.streamed_end();
        let total: u64 = self.total_data_sectors;
        let ghost start = self.stream_next_sector as int;
        let mut cursor: u64 = self.stream_next_sector;
        let mut at: u64 = self.stream_position;
        let mut out: Vec<u8> = Vec::new();
        let mut is_over: bool = false;
        proof {
            lemma_end_from(img, base, first, first, start, n);
            lemma_part_end(img, base, first, start + 1, n);
            lemma_position_bound_stream(*self);
            assert(self.written@ + out@ =~= self.written@);
        }
        while !is_over && out.len() < max_bytes
            invariant
                self.wf(),
                self.same_image(old(self)),
                *self == (CisoSession { source: self.source, ..*old(self) }),
                old(self).wf(),
                old(self).sizing_done,
                old(self).stream_stage == StreamStage::Sectors,
                img == self.img(),
                n == self.n(),
                n == total,
                n * 2048 <= img.len(),
                base == self.base(),
                base == lead.len(),
                first == self.stream_first@,
                lead == self.lead(),
                end == self.streamed_end(),
                start == self.stream_next_sector,
                0 <= first <= start <= cursor <= end <= n,
                end == part_end(img, base, first, cursor as int, n),
                is_over == (cursor == end),
                cursor == start ==> !is_over,
                !is_over ==> cursor < n && position(img, base, first, cursor as int)
                    < FILE_SPLIT_POINT,
                stays_below(img, base, first, cursor as int),
                at == old(self).written@.len() + out@.len(),
                cursor == start ==> out@.len() == 0,
                cursor > start ==> old(self).written@ + out@ == self.upto(cursor as int),
                cursor > start ==> out@.len() > 0,
                out@.len() <= max_bytes + 2050,
            decreases end - cursor,
        {
            let ghost k = cursor as int;
            let ghost was = old(self).written@ + out@;
            let ghost all = self.upto(k);
            let ghost padded = self.padded_upto(k);
            proof {
                if cursor == start {
                    assert(was =~= old(self).written@);
                }
                assert(was == all || was == padded);
                lemma_padded(lead, img, base, first, k, was);
            }
            let pad: u64 = Self::align_padding(at);
            put_zeros(&mut out, pad as usize);
            at = at + pad;
            assert(old(self).written@ + out@ =~= was + zeros(pad as nat));
            let data = match self.read_sector(cursor) {
                Ok(v) => v,
                Err(e) => {
                    self.stream_next_sector = cursor;
                    self.stream_position = at;
                    proof {
                        self.written@ = old(self).written@ + out@;
                    }
                    return Err(e);
                },
            };
            proof {
                lemma_stored_short(data@);
            }
            let (stored_bytes, _) = compress_sector(data.as_slice());
            put_slice(&mut out, stored_bytes.as_slice());
            at = at + stored_bytes.len() as u64;
            cursor = cursor + 1;
            proof {
                assert(old(self).written@ + out@ =~= padded + stored_bytes@);
                lemma_next_sector(lead, img, base, first, k, n, padded);
            }
            is_over = cursor >= total || at + Self::align_padding(at) >= FILE_SPLIT_POINT;
        }
        self.stream_next_sector = cursor;
        self.stream_position = at;
        proof {
            self.written@ = old(self).written@ + out@;
            if cursor == start {
                assert(self.written@ =~= old(self).written@);
            }
        }
        Ok(out)
    }

    /// The header and index, the stored sectors or the padding of the current part end after
    /// `at` bytes of it.
    pub open spec fn is_seam(&self, at: int) -> bool {
        ||| self.stream_part == 0 && at == self.head().len()
        ||| at == self.upto(self.streamed_end()).len()
        ||| at == self.streamed_image().len()
    }

    /// The next piece of the output: header and index, then each part's sectors and the zeros
    /// that end it; none after the last part. What is emitted of a part is the part, from its
    /// start to its end.
    #[verifier::rlimit(60)]
    pub fn next_chunk(&mut self, max_bytes: usize) -> (r: Result<Option<Vec<u8>>, CisoWriteError>)
        requires
            old(self).wf(),
        ensures
            chunk_step(*old(self), *final(self), max_bytes, r),
    {
        if !self.sizing_done {
            return Err(CisoWriteError::SizingUnfinished);
        }
        if self.stream_stage == StreamStage::Done {
            return Ok(None);
        }
        let count: usize = self.parts.len();
        let p: usize = self.stream_part;
        let total: u64 = self.total_data_sectors;
        let ghost img = self.img();
        let ghost n = self.n();
        let ghost before = self.written@;
        let ghost head = self.head();
        proof {
            crate::ciso::format::lemma_index_len(
                self.index_table@,
                self.index_table@.len() as int,
            );
            crate::ciso::format::cso_header_round_trips((total * 2048) as u64);
        }
        self.current_entry_name = output_name_for(self.base_name.as_str(), p as u64, count);
        if self.stream_stage == StreamStage::Header {
            let pos: usize = self.header_index_pos;
            let len: usize = self.header_and_index.len();
            let stop: usize = if max_bytes < len - pos {
                pos + max_bytes
            } else {
                len
            };
            let chunk = copy_range(self.header_and_index.as_slice(), pos, stop);
            self.header_index_pos = stop;
            proof {
                self.written@ = before + chunk@;
                assert(self.written@ =~= head.take(stop as int));
            }
            if stop >= len {
                self.stream_stage = StreamStage::Sectors;
                self.stream_position = len as u64;
                assert(self.written@ =~= self.upto(0));
            }
            return Ok(Some(chunk));
        }
        proof {
            lemma_position_bound_stream(*self);
            lemma_end_from(
                img,
                self.base(),
                self.stream_first@,
                self.stream_first@,
                self.stream_next_sector as int,
                n,
            );
            lemma_part_end(
                img,
                self.base(),
                self.stream_first@,
                self.stream_next_sector as int,
                n,
            );
            if self.stream_next_sector < total {
                lemma_part_end(
                    img,
                    self.base(),
                    self.stream_first@,
                    self.stream_next_sector + 1,
                    n,
                );
            }
            assert(self.index_table.len() == n + 1);
        }
        let at: u64 = self.stream_position;
        if self.stream_next_sector < total && at + Self::align_padding(at) < FILE_SPLIT_POINT {
            return match self.next_sectors(max_bytes) {
                Ok(v) => Ok(Some(v)),
                Err(e) => Err(CisoWriteError::Read(e)),
            };
        }
        let size: u64 = padded_part_size(at);
        let chunk = zeroed((size - at) as usize);
        assert(before + chunk@ =~= self.streamed_image());
        self.stream_part = p + 1;
        self.stream_stage = if self.stream_next_sector >= total {
            StreamStage::Done
        } else {
            StreamStage::Sectors
        };
        self.stream_position = 0;
        proof {
            self.written@ = Seq::empty();
            self.stream_first@ = self.stream_next_sector as int;
            assert(self.upto(self.stream_first@) =~= Seq::empty());
        }
        Ok(Some(chunk))
    }

    pub fn is_done(&self) -> (r: bool)
        ensures
            r == (self.sizing_done && self.stream_stage == StreamStage::Done),
    {
        self.sizing_done && self.stream_stage == StreamStage::Done
    }

    /// Progress is counted in sectors.
    pub fn total_units(&self) -> (r: u64)
        ensures
            r == self.total_data_sectors,
    {
        self.total_data_sectors
    }

    pub fn current_entry_name(&self) -> (r: &str)
        ensures
            r@ == self.current_entry_name@,
    {
        self.current_entry_name.as_str()
    }

    /// Name and size of every part, once they are fixed.
    pub fn output_manifest(&self) -> (r: Vec<(String, u64)>)
        requires
            self.wf(),
        ensures
            !self.sizing_done ==> r@.len() == 0,
            self.sizing_done ==> r@.len() == self.parts@.len() && forall|j: int|
                0 <= j < r@.len() ==> (#[trigger] r@[j]).0@ == output_name(
                    self.base_name@,
                    j,
                    self.parts@.len() as int,
                ) && r@[j].1 == part_size(
                    self.plan@,
                    base_of(self.n(), j),
                    self.parts@[j].first_sector as int,
                    self.parts@[j].end_sector as int,
                ),
    {
        let mut r: Vec<(String, u64)> = Vec::new();
        if !self.sizing_done {
            return r;
        }
        let n: usize = self.parts.len();
        let mut j: usize = 0;
        while j < n
            invariant
                j <= n == self.parts@.len(),
                self.wf(),
                self.sizing_done,
                r@.len() == j,
                forall|i: int|
                    0 <= i < j ==> (#[trigger] r@[i]).0@ == output_name(
                        self.base_name@,
                        i,
                        n as int,
                    ) && r@[i].1 == part_size(
                        self.plan@,
                        base_of(self.n(), i),
                        self.parts@[i].first_sector as int,
                        self.parts@[i].end_sector as int,
                    ),
            decreases n - j,
        {
            assert(self.parts@[j as int].matches(self.plan@, self.n(), j as int));
            r.push(
                (output_name_for(self.base_name.as_str(), j as u64, n), self.parts[j].size),
            );
            j = j + 1;
        }
        r
    }
}

/// Aligning what is there of a part, aligned already or not, brings it to where sector `k` is
/// stored.
proof fn lemma_padded(
    lead: Seq<u8>,
    img: Seq<u8>,
    base: int,
    first: int,
    k: int,
    was: Seq<u8>,
)
    requires
        lead.len() == base,
        ({
            let all = lead + body(img, base, first, k);
            was == all || was == all + zeros(pad4(all.len() as int) as nat)
        }),
    ensures
        ({
            let all = lead + body(img, base, first, k);
            &&& was + zeros(pad4(was.len() as int) as nat) == all + zeros(
                pad4(all.len() as int) as nat,
            )
            &&& round_up(was.len() as int, 4) == position(img, base, first, k)
            &&& was.len() + pad4(was.len() as int) == position(img, base, first, k)
        }),
{
    let all = lead + body(img, base, first, k);
    if was != all {
        assert(pad4(was.len() as int) == 0);
        assert(was + zeros(0) =~= was);
    }
}

/// What is there of a part once sector `k` is stored behind it.
proof fn lemma_next_sector(
    lead: Seq<u8>,
    img: Seq<u8>,
    base: int,
    first: int,
    k: int,
    n: int,
    padded: Seq<u8>,
)
    requires
        lead.len() == base,
        first <= k < n,
        stays_below(img, base, first, k),
        position(img, base, first, k) < FILE_SPLIT_POINT,
        ({
            let all = lead + body(img, base, first, k);
            padded == all + zeros(pad4(all.len() as int) as nat)
        }),
    ensures
        padded + stored(sector_at(img, k)) == lead + body(img, base, first, k + 1),
        round_up((padded + stored(sector_at(img, k))).len() as int, 4) == position(
            img,
            base,
            first,
            k + 1,
        ),
        stays_below(img, base, first, k + 1),
        part_end(img, base, first, k, n) == part_end(img, base, first, k + 1, n),
        k + 1 <= part_end(img, base, first, k + 1, n) <= n,
        k + 1 < n && position(img, base, first, k + 1) < FILE_SPLIT_POINT ==> k + 1 < part_end(
            img,
            base,
            first,
            k + 1,
            n,
        ),
        (k + 1 >= n || position(img, base, first, k + 1) >= FILE_SPLIT_POINT) ==> k + 1 == part_end(
            img,
            base,
            first,
            k + 1,
            n,
        ),
{
    let before = body(img, base, first, k);
    let sector = stored(sector_at(img, k));
    assert(body(img, base, first, k + 1) == before + zeros(pad4(base + before.len()) as nat)
        + sector);
    assert(padded + sector =~= lead + (before + zeros(pad4(base + before.len()) as nat) + sector));
    lemma_part_end(img, base, first, k + 1, n);
    if k + 1 < n && position(img, base, first, k + 1) < FILE_SPLIT_POINT {
        lemma_part_end(img, base, first, k + 2, n);
    }
}

/// Where a part ends does not depend on how far it is.
proof fn lemma_end_from(img: Seq<u8>, base: int, first: int, k: int, next: int, n: int)
    requires
        k <= next <= n,
        forall|i: int| k <= i < next ==> #[trigger] position(img, base, first, i) < FILE_SPLIT_POINT,
    ensures
        part_end(img, base, first, k, n) == part_end(img, base, first, next, n),
    decreases next - k,
{
    if k < next {
        assert(position(img, base, first, k) < FILE_SPLIT_POINT);
        lemma_end_from(img, base, first, k + 1, next, n);
    }
}

/// What is emitted of a part can be counted.
proof fn lemma_position_bound_stream<S: ByteSource>(s: CisoSession<S>)
    requires
        s.wf(),
        s.sizing_done,
        s.stream_stage == StreamStage::Sectors,
    ensures
        s.stream_position <= (if s.base() < FILE_SPLIT_POINT {
            FILE_SPLIT_POINT as int
        } else {
            s.base()
        }) + 2051,
        round_up(s.stream_position as int, 4) == s.stored_where(s.stream_next_sector as int),
{
    let next = s.stream_next_sector as int;
    if s.stream_first@ < next {
        assert(position(s.img(), s.base(), s.stream_first@, next - 1) < FILE_SPLIT_POINT);
        lemma_stored_short(sector_at(s.img(), next - 1));
    }
}

pub proof fn lemma_body_at(img: Seq<u8>, base: int, first: int, k: int, end: int)
    requires
        0 <= base,
        first <= k < end,
    ensures
        ({
            let at = position(img, base, first, k) - base;
            let len = stored(sector_at(img, k)).len() as int;
            &&& 0 <= at
            &&& body(img, base, first, k + 1).len() == at + len
            &&& at + len <= body(img, base, first, end).len()
            &&& body(img, base, first, end).subrange(at, at + len) == stored(sector_at(img, k))
            &&& forall|i: int|
                at + len <= i < position(img, base, first, k + 1) - base && i < body(
                    img,
                    base,
                    first,
                    end,
                ).len() ==> #[trigger] body(img, base, first, end)[i] == 0
        }),
    decreases end - k,
{
    let all = body(img, base, first, end);
    let prev = body(img, base, first, end - 1);
    let at = position(img, base, first, k) - base;
    let len = stored(sector_at(img, k)).len() as int;
    if k == end - 1 {
        assert(all.subrange(at, at + len) =~= stored(sector_at(img, k)));
    } else {
        lemma_body_at(img, base, first, k, end - 1);
        assert(all.subrange(at, at + len) =~= prev.subrange(at, at + len));
        assert forall|i: int|
            at + len <= i < position(img, base, first, k + 1) - base && i
                < all.len() implies #[trigger] all[i] == 0 by {
            if i < prev.len() {
                assert(all[i] == prev[i]);
            } else {
                lemma_positions_grow(img, base, first, k + 1, end - 1);
                assert(i < prev.len() + pad4(base + prev.len()));
            }
        }
    }
}

pub proof fn lemma_positions_grow(img: Seq<u8>, base: int, first: int, i: int, j: int)
    requires
        first <= i <= j,
    ensures
        position(img, base, first, i) <= position(img, base, first, j),
        body(img, base, first, i).len() <= body(img, base, first, j).len(),
    decreases j - i,
{
    if i < j {
        lemma_positions_grow(img, base, first, i, j - 1);
    }
}

/// What stands in a part from where sector `k` is stored to where the next one would be: the
/// stored sector, and zeros.
#[verifier::spinoff_prover]
pub proof fn lemma_stored_field(
    img: Seq<u8>,
    part: CisoPart,
    n: int,
    j: int,
    head: Seq<u8>,
    k: int,
)
    requires
        part.matches(img, n, j),
        0 <= n,
        n * 2048 <= img.len(),
        head.len() == 24 + 4 * (n + 1),
        part.first_sector <= k < part.end_sector <= n,
    ensures
        ({
            let base = part.base as int;
            let first = part.first_sector as int;
            let b = part.image(img, j, head);
            let at = position(img, base, first, k);
            let to = position(img, base, first, k + 1);
            let s = stored(sector_at(img, k));
            &&& base <= at
            &&& at + s.len() <= to <= b.len()
            &&& field(b, at, to - at) == s + zeros((to - at - s.len()) as nat)
        }),
{
    let base = part.base as int;
    let first = part.first_sector as int;
    let end = part.end_sector as int;
    let b = part.image(img, j, head);
    let data = part.data(img);
    let s = stored(sector_at(img, k));
    let at = position(img, base, first, k);
    let to = position(img, base, first, k + 1);
    lemma_body_at(img, base, first, k, end);
    lemma_positions_grow(img, base, first, k + 1, end);
    lemma_round_up(base + body(img, base, first, k).len());
    lemma_round_up(base + body(img, base, first, k + 1).len());
    lemma_round_up(base + data.len());
    assert(b.len() == part.size);
    lemma_part_field(
        if j == 0 {
            head
        } else {
            Seq::empty()
        },
        data,
        part.size - base - data.len(),
        at - base,
        to - base,
        s,
    );
}

/// A piece of zeros and data behind a lead, where the data begins at `at` with `s` and is zero
/// behind it.
proof fn lemma_part_field(
    lead: Seq<u8>,
    data: Seq<u8>,
    pad: int,
    at: int,
    to: int,
    s: Seq<u8>,
)
    requires
        0 <= pad,
        0 <= at,
        at + s.len() <= to <= data.len() + pad,
        at + s.len() <= data.len(),
        data.subrange(at, at + s.len()) == s,
        forall|i: int| at + s.len() <= i < to && i < data.len() ==> #[trigger] data[i] == 0,
    ensures
        field(lead + data + zeros(pad as nat), lead.len() + at, to - at) == s + zeros(
            (to - at - s.len()) as nat,
        ),
{
    let b = lead + data + zeros(pad as nat);
    let x = field(b, lead.len() + at, to - at);
    let y = s + zeros((to - at - s.len()) as nat);
    assert forall|i: int| 0 <= i < to - at implies #[trigger] x[i] == y[i] by {
        assert(x[i] == b[lead.len() + at + i]);
        if i < s.len() {
            assert(data.subrange(at, at + s.len())[i] == data[at + i]);
        } else if at + i < data.len() {
            assert(data[at + i] == 0);
        }
    }
    assert(x =~= y);
}

/// A sector is read back as it went in, if the entry after its own says where its stored bytes
/// end, rounded up to four: the two entries locate the stored bytes, and they decode to it.
#[verifier::spinoff_prover]
#[verifier::rlimit(60)]
pub proof fn sector_reads_back(
    img: Seq<u8>,
    part: CisoPart,
    n: int,
    j: int,
    head: Seq<u8>,
    e: IndexTableEntry,
    next: IndexTableEntry,
    k: int,
)
    requires
        part.matches(img, n, j),
        0 <= n,
        part.end_sector <= n,
        n * 2048 <= img.len(),
        head.len() == 24 + 4 * (n + 1),
        part.base < FILE_SPLIT_POINT,
        part.first_sector <= k < part.end_sector,
        is_entry(e, img, part.base as int, part.first_sector as int, k),
        next.pos() == position(img, part.base as int, part.first_sector as int, k + 1) / 4,
        body_decodes(sector_at(img, k)),
    ensures
        ({
            let b = part.image(img, j, head);
            let at = stored_at(e, 2);
            let len = stored_len(e, next, 2);
            &&& e.pos() <= next.pos()
            &&& at + len <= b.len()
            &&& stored_sector(field(b, at, len), e.is_compressed()) == Ok::<Seq<u8>, CisoError>(
                sector_at(img, k),
            )
        }),
{
    let base = part.base as int;
    let first = part.first_sector as int;
    let end = part.end_sector as int;
    let s = sector_at(img, k);
    vstd::arithmetic::power2::lemma2_to64();
    lemma_stored_field(img, part, n, j, head, k);
    lemma_stored_short(s);
    assert(position(img, base, first, k) < FILE_SPLIT_POINT);
    let at = position(img, base, first, k);
    let to = position(img, base, first, k + 1);
    if k + 1 < end {
        assert(position(img, base, first, k + 1) < FILE_SPLIT_POINT);
    } else {
        lemma_position_bound(img, base, first, end, n);
    }
    lemma_round_up(base + body(img, base, first, k).len());
    lemma_round_up(base + body(img, base, first, k + 1).len());
    assert(stored_at(e, 2) == at);
    assert(stored_len(e, next, 2) == to - at);
    let pad = (to - at - stored(s).len()) as nat;
    if is_kept_compressed(s) {
        assert(lz4_frame_decoded(framed(frame_body(s) + zeros(pad))) == Some(s));
    } else {
        assert(pad == 0) by {
            lemma_body_at(img, base, first, k, end);
        }
        assert(stored(s) + zeros(pad) =~= s);
    }
}

} // verus!
