//! Writing a package: a hashing pass over every part, then the parts and last the header.
use crate::bytes::{ceil_div, copy_range, field, overwrite, put_slice, zeros};
use crate::digest::sha1_of;
use crate::god::format::{
    BLOCKS_PER_PART, BLOCK_SIZE, FULL_PART_BLOCKS, MHT_SIZE, PART_SIZE, SUBPARTS_PER_PART,
    SUBPART_SIZE,
};
use crate::god::hash_list::{holds, list_bytes, used_from, used_len, zero_run, HashList};
use crate::god::read::{offset_of_sector, part_of_sector, GodReadError, GodSource};
use crate::source::{image_bytes, ByteSource, ReadError};
use crate::stfs::format::ContentType;
use crate::stfs::header::TitleExecutionInfo;
use crate::utils::text::{decimal4, hex_digits, push_decimal4, push_hex};
use vstd::prelude::*;
use vstd::string::*;

verus! {

/// Why a package cannot be written.
#[derive(Clone, Copy, Debug, PartialEq, Eq, Structural)]
pub enum GodWriteError {
    BadHashList,
    BadDigestLength,
    /// Only Games on Demand titles can be console-signed.
    NotSignable(u32),
    /// More blocks than are counted in 32 bits.
    ImageTooLarge,
    /// More parts than are counted in 32 bits.
    TooManyParts,
    /// Output was asked for before every part was hashed.
    HashingUnfinished,
    Read(ReadError),
}

impl GodWriteError {
    pub open spec fn text(self) -> Seq<char> {
        match self {
            GodWriteError::BadHashList => "not a hash list"@,
            GodWriteError::BadDigestLength => "digest must be 20 bytes"@,
            GodWriteError::NotSignable(_) =>
                "god: console-signing is only supported for GamesOnDemand (XEX) sources"@,
            GodWriteError::ImageTooLarge => "image too large: block count overflows u32"@,
            GodWriteError::TooManyParts => "image too large: part count overflows u32"@,
            GodWriteError::HashingUnfinished =>
                "GodSession::next_chunk called before hashing finished - call hash_next_part() until it returns true first"@,
            GodWriteError::Read(_) => "god: read failed"@,
        }
    }

    pub fn message(&self) -> (r: &'static str)
        ensures
            r@ == self.text(),
    {
        match *self {
            GodWriteError::BadHashList => "not a hash list",
            GodWriteError::BadDigestLength => "digest must be 20 bytes",
            GodWriteError::NotSignable(_) =>
                "god: console-signing is only supported for GamesOnDemand (XEX) sources",
            GodWriteError::ImageTooLarge => "image too large: block count overflows u32",
            GodWriteError::TooManyParts => "image too large: part count overflows u32",
            GodWriteError::HashingUnfinished =>
                "GodSession::next_chunk called before hashing finished - call hash_next_part() until it returns true first",
            GodWriteError::Read(_) => "god: read failed",
        }
    }
}

/// The digest of the hash block `mht_bytes` with `next_digest` appended to its digests.
pub fn chain_mht_digest(mht_bytes: &[u8], next_digest: &[u8]) -> (r: Result<
    Vec<u8>,
    GodWriteError,
>)
    requires
        mht_bytes@.len() >= 4096 && next_digest@.len() == 20 ==> used_len(mht_bytes@.take(4096))
            + 20 <= 4096,
    ensures
        match r {
            Ok(d) => d@.len() == 20 && mht_bytes@.len() >= 4096 && next_digest@.len() == 20 && d@
                == sha1_of(
                overwrite(
                    mht_bytes@.take(4096),
                    used_len(mht_bytes@.take(4096)),
                    next_digest@,
                ),
            ),
            Err(GodWriteError::BadHashList) => mht_bytes@.len() < 4096,
            Err(GodWriteError::BadDigestLength) => mht_bytes@.len() >= 4096 && next_digest@.len()
                != 20,
            Err(_) => false,
        },
{
    let mut mht = match HashList::read(mht_bytes) {
        Ok(l) => l,
        Err(_) => {
            return Err(GodWriteError::BadHashList);
        },
    };
    if next_digest.len() != 20 {
        return Err(GodWriteError::BadDigestLength);
    }
    let hash: [u8; 20] = crate::bytes::take_array(next_digest, 0);
    assert(hash@ =~= next_digest@);
    mht.add_hash(&hash);
    let d = mht.digest();
    let mut r: Vec<u8> = Vec::new();
    put_slice(&mut r, d.as_slice());
    assert(r@ =~= d@);
    Ok(r)
}

/// The content type of a package: a console-signed one is an installed game, and only a Games
/// on Demand title can become one.
pub fn resolve_god_content_type(signed: bool, content_type: ContentType) -> (r: Result<
    ContentType,
    GodWriteError,
>)
    ensures
        r == (if !signed {
            Ok(content_type)
        } else if content_type == ContentType::GamesOnDemand {
            Ok(ContentType::InstalledGame)
        } else {
            Err(GodWriteError::NotSignable(content_type.value()))
        }),
{
    if !signed {
        Ok(content_type)
    } else if content_type == ContentType::GamesOnDemand {
        Ok(ContentType::InstalledGame)
    } else {
        Err(GodWriteError::NotSignable(content_type.as_u32()))
    }
}

/// Block `k` of `data`; the last may be short.
pub open spec fn block_of(data: Seq<u8>, k: int) -> Seq<u8> {
    data.subrange(
        k * 0x1000,
        if (k + 1) * 0x1000 < data.len() {
            (k + 1) * 0x1000
        } else {
            data.len() as int
        },
    )
}

/// The digest of every block of `data`.
pub open spec fn block_hashes(data: Seq<u8>) -> Seq<Seq<u8>> {
    Seq::new(ceil_div(data.len() as int, 0x1000) as nat, |k: int| sha1_of(block_of(data, k)))
}

/// The hash block of a subpart.
pub open spec fn sub_table(data: Seq<u8>) -> Seq<u8> {
    list_bytes(block_hashes(data))
}

/// How many subparts part `p` of `size` bytes of data has.
pub open spec fn subparts(size: int, p: int) -> int {
    let left = size - p * 0xa1c4000;
    if left <= 0 {
        0
    } else if left >= 0xa1c4000 {
        0xcb
    } else {
        ceil_div(left, 0xcc000)
    }
}

/// The data of subpart `s` of part `p`.
pub open spec fn subpart(img: Seq<u8>, size: int, p: int, s: int) -> Seq<u8> {
    let start = p * 0xa1c4000 + s * 0xcc000;
    img.subrange(
        start,
        if start + 0xcc000 < size {
            start + 0xcc000
        } else {
            size
        },
    )
}

/// The digests in the master hash block of part `p`.
pub open spec fn master_hashes(img: Seq<u8>, size: int, p: int, k: int) -> Seq<Seq<u8>> {
    Seq::new(k as nat, |s: int| sha1_of(sub_table(subpart(img, size, p, s))))
}

/// The master hash block of part `p`, before it is chained.
pub open spec fn master_table(img: Seq<u8>, size: int, p: int) -> Seq<u8> {
    list_bytes(master_hashes(img, size, p, subparts(size, p)))
}

/// The master hash block of part `p` of `n`: it ends with the digest of the next part's.
pub open spec fn chained_table(img: Seq<u8>, size: int, n: int, p: int) -> Seq<u8>
    decreases n - p,
{
    let m = master_table(img, size, p);
    if p >= n - 1 {
        m
    } else {
        overwrite(m, used_len(m), sha1_of(chained_table(img, size, n, p + 1)))
    }
}

/// The first `k` subparts of part `p`, each after its hash block.
pub open spec fn part_body(img: Seq<u8>, size: int, p: int, k: int) -> Seq<u8>
    decreases k,
{
    if k <= 0 {
        Seq::empty()
    } else {
        part_body(img, size, p, k - 1) + sub_table(subpart(img, size, p, k - 1)) + subpart(
            img,
            size,
            p,
            k - 1,
        )
    }
}

/// Part `p` of `n`.
pub open spec fn part_image(img: Seq<u8>, size: int, n: int, p: int) -> Seq<u8> {
    chained_table(img, size, n, p) + part_body(img, size, p, subparts(size, p))
}

/// How many parts `size` bytes of data take.
pub open spec fn part_count_of(size: int) -> int {
    ceil_div(ceil_div(size, 0x1000), 0xa1c4)
}

proof fn lemma_used_bound(hashes: Seq<Seq<u8>>, p: int)
    requires
        hashes.len() <= 203,
        0 <= p <= hashes.len(),
    ensures
        0 <= used_from(list_bytes(hashes), p) <= hashes.len() * 20,
    decreases hashes.len() - p,
{
    let b = list_bytes(hashes);
    if p == hashes.len() {
        assert(zero_run(b, p)) by {
            assert forall|i: int| p * 20 <= i < p * 20 + 20 && i < 4096 implies #[trigger] b[i]
                == 0 by {
                assert(i / 20 == p);
            }
        }
    } else {
        lemma_used_bound(hashes, p + 1);
    }
}

/// The hash block of `data`.
fn hash_blocks(data: &[u8]) -> (r: HashList)
    requires
        data@.len() <= 0xcc000,
    ensures
        r.buffer@ == sub_table(data@),
{
    let n: usize = data.len();
    let count: usize = (n + 0xFFF) / 0x1000;
    let mut list = HashList::new();
    let mut k: usize = 0;
    assert(block_hashes(data@).take(0) =~= Seq::empty());
    while k < count
        invariant
            k <= count <= 204,
            n == data@.len(),
            n <= 0xcc000,
            count == ceil_div(n as int, 0x1000),
            holds(list, block_hashes(data@).take(k as int)),
        decreases count - k,
    {
        let from: usize = k * 0x1000;
        let to: usize = if from + 0x1000 < n {
            from + 0x1000
        } else {
            n
        };
        let block = copy_range(data, from, to);
        assert(block@ == block_of(data@, k as int));
        list.add_block_hash(block.as_slice());
        assert(block_hashes(data@).take(k + 1) =~= block_hashes(data@).take(k as int).push(
            sha1_of(block@),
        ));
        k = k + 1;
    }
    assert(block_hashes(data@).take(count as int) =~= block_hashes(data@));
    list
}

/// What the hashing pass keeps of a part: the hash block and size of each subpart.
pub struct PartHashes {
    pub tables: Vec<HashList>,
    pub sizes: Vec<u64>,
}

impl PartHashes {
    /// These are the first `k` subparts of part `p`.
    pub open spec fn matches(self, img: Seq<u8>, size: int, p: int, k: int) -> bool {
        &&& self.tables@.len() == k
        &&& self.sizes@.len() == k
        &&& forall|s: int|
            0 <= s < k ==> (#[trigger] self.tables@[s]).buffer@ == sub_table(
                subpart(img, size, p, s),
            )
        &&& forall|s: int|
            0 <= s < k ==> #[trigger] self.sizes@[s] == subpart(img, size, p, s).len()
    }

    /// The bytes of the part: master hash block, hash blocks and data.
    fn actual_size(&self, Ghost(img): Ghost<Seq<u8>>, Ghost(size): Ghost<int>, Ghost(p): Ghost<
        int,
    >) -> (r: u64)
        requires
            self.matches(img, size, p, self.tables@.len() as int),
            self.tables@.len() <= 0xcb,
            forall|s: int|
                0 <= s < self.tables@.len() ==> #[trigger] self.sizes@[s] <= 0xcc000,
        ensures
            r == 4096 + part_body(img, size, p, self.tables@.len() as int).len(),
    {
        let n: usize = self.tables.len();
        let mut total: u64 = 4096;
        let mut s: usize = 0;
        while s < n
            invariant
                s <= n <= 0xcb,
                n == self.tables@.len(),
                self.matches(img, size, p, n as int),
                forall|j: int| 0 <= j < n ==> #[trigger] self.sizes@[j] <= 0xcc000,
                total == 4096 + part_body(img, size, p, s as int).len(),
                total <= 4096 + s * 0xcd000,
            decreases n - s,
        {
            total = total + 4096 + self.sizes[s];
            s = s + 1;
        }
        total
    }
}

/// What is emitted: bytes of the current entry, or last the fields of the header.
pub enum GodChunk {
    Data(Vec<u8>),
    Header(GodHeader),
}

/// What the package's header says of its data.
pub struct GodHeader {
    pub block_count: u32,
    pub part_count: u32,
    /// The size of all parts together.
    pub parts_size: u64,
    pub content_type: u32,
    pub execution_info: TitleExecutionInfo,
    /// The digest of the first part's master hash block.
    pub mht_hash: [u8; 20],
    pub device_id: Option<[u8; 20]>,
    pub game_title: Option<String>,
}

/// Emits a package.
pub struct GodSession<S: ByteSource> {
    pub source: S,
    pub data_size: u64,
    pub part_count: u32,
    pub block_count: u32,
    pub exe_info: TitleExecutionInfo,
    pub content_type: ContentType,
    pub game_title: Option<String>,
    pub device_id: Option<[u8; 20]>,
    pub parts: Vec<PartHashes>,
    /// Master hash blocks, as they are before and after chaining.
    pub raw_mhts: Vec<HashList>,
    pub chained_mhts: Vec<Vec<u8>>,
    pub master_digest: [u8; 20],
    pub last_part_size: u64,
    pub next_hash_part: u32,
    pub hashing_done: bool,
    pub current_part_index: u32,
    pub current_subpart_index: u32,
    pub part_header_emitted: bool,
    pub header_emitted: bool,
    pub last_entry_name: Option<String>,
    /// What has been emitted of the current part.
    pub written: Ghost<Seq<u8>>,
}

/// What one step of preparation makes of session `a`: session `b` and the result `r`.
pub open spec fn hash_step<S: ByteSource>(
    a: GodSession<S>,
    b: GodSession<S>,
    r: Result<bool, GodWriteError>,
) -> bool {
    &&& b.wf()
    &&& b.same_package(&a)
    &&& b.current_part_index == a.current_part_index
    &&& b.current_subpart_index == a.current_subpart_index
    &&& b.part_header_emitted == a.part_header_emitted
    &&& b.header_emitted == a.header_emitted
    &&& b.last_entry_name == a.last_entry_name
    &&& b.written@ == a.written@
    &&& a.hashing_done ==> b == a
    &&& match r {
        Ok(done) => {
            &&& done == b.hashing_done
            &&& !a.hashing_done ==> b.next_hash_part == a.next_hash_part + 1
        },
        Err(e) => e is Read && !a.hashing_done && !a.source.reliable() && b.next_hash_part
            == a.next_hash_part,
    }
}

/// `r` is what opening a session with these arguments comes to.
pub open spec fn is_opened<S: ByteSource>(
    source: S,
    data_size: u64,
    exe_info: TitleExecutionInfo,
    content_type: ContentType,
    game_title: Option<String>,
    signed: bool,
    device_id: Option<[u8; 20]>,
    r: Result<GodSession<S>, GodWriteError>,
) -> bool {
    match r {
        Ok(s) => {
            &&& s.wf()
            &&& s.source == source
            &&& s.data_size == data_size
            &&& s.exe_info == exe_info
            &&& s.content_type == (if signed {
                ContentType::InstalledGame
            } else {
                content_type
            })
            &&& signed ==> content_type == ContentType::GamesOnDemand
            &&& s.game_title == game_title
            &&& s.device_id == device_id
            &&& s.next_hash_part == 0
            &&& !s.header_emitted
            &&& s.current_part_index == 0
            &&& !s.part_header_emitted
        },
        Err(GodWriteError::NotSignable(v)) => signed && content_type
            != ContentType::GamesOnDemand && v == content_type.value(),
        Err(GodWriteError::TooManyParts) => {
            &&& !(signed && content_type != ContentType::GamesOnDemand)
            &&& part_count_of(data_size as int) > u32::MAX
        },
        Err(GodWriteError::ImageTooLarge) => {
            &&& !(signed && content_type != ContentType::GamesOnDemand)
            &&& part_count_of(data_size as int) <= u32::MAX
            &&& ceil_div(data_size as int, 0x1000) > u32::MAX
        },
        Err(_) => false,
    }
}

impl<S: ByteSource> GodSession<S> {
    pub open spec fn img(&self) -> Seq<u8> {
        self.source.bytes()
    }

    /// How much of the data there is: an image may end before it.
    pub open spec fn size(&self) -> int {
        if self.data_size <= self.img().len() {
            self.data_size as int
        } else {
            self.img().len() as int
        }
    }

    pub open spec fn n(&self) -> int {
        self.part_count as int
    }

    pub open spec fn wf(&self) -> bool {
        let img = self.img();
        let size = self.size();
        let n = self.n();
        &&& self.source.valid()
        &&& n == part_count_of(self.data_size as int)
        &&& self.block_count == ceil_div(self.data_size as int, 0x1000)
        &&& self.parts@.len() == self.next_hash_part <= n
        &&& forall|p: int|
            0 <= p < self.parts@.len() ==> (#[trigger] self.parts@[p]).matches(
                img,
                size,
                p,
                subparts(size, p),
            )
        &&& self.hashing_done == (self.next_hash_part == n)
        &&& !self.hashing_done ==> self.raw_mhts@.len() == self.next_hash_part && forall|p: int|
            0 <= p < self.raw_mhts@.len() ==> (#[trigger] self.raw_mhts@[p]).buffer@
                == master_table(img, size, p)
        &&& self.hashing_done ==> {
            &&& self.chained_mhts@.len() == n
            &&& forall|p: int|
                0 <= p < n ==> (#[trigger] self.chained_mhts@[p])@ == chained_table(
                    img,
                    size,
                    n,
                    p,
                )
            &&& self.master_digest@ == (if n == 0 {
                zeros(20)
            } else {
                sha1_of(chained_table(img, size, n, 0))
            })
            &&& self.last_part_size == (if n == 0 {
                0
            } else {
                4096 + part_body(img, size, n - 1, subparts(size, n - 1)).len() as int
            })
        }
        &&& self.current_part_index <= n
        &&& self.current_part_index == n ==> !self.part_header_emitted
        &&& self.current_part_index < n ==> self.current_subpart_index <= subparts(
            size,
            self.current_part_index as int,
        )
        &&& self.header_emitted ==> self.current_part_index == n
        &&& self.written@ == (if !self.part_header_emitted {
            Seq::empty()
        } else {
            chained_table(img, size, n, self.current_part_index as int) + part_body(
                img,
                size,
                self.current_part_index as int,
                self.current_subpart_index as int,
            )
        })
        &&& !self.part_header_emitted ==> self.current_subpart_index == 0
    }

    /// The same package is being written.
    pub open spec fn same_package(&self, other: &Self) -> bool {
        &&& self.source.bytes() == other.source.bytes()
        &&& self.source.reliable() == other.source.reliable()
        &&& self.data_size == other.data_size
        &&& self.part_count == other.part_count
        &&& self.block_count == other.block_count
        &&& self.exe_info == other.exe_info
        &&& self.content_type == other.content_type
        &&& self.game_title == other.game_title
        &&& self.device_id == other.device_id
    }

    /// A session for the first `data_size` bytes of `source`.
    pub fn open(
        source: S,
        data_size: u64,
        exe_info: TitleExecutionInfo,
        content_type: ContentType,
        game_title: Option<String>,
        signed: bool,
        device_id: Option<[u8; 20]>,
    ) -> (r: Result<GodSession<S>, GodWriteError>)
        requires
            source.valid(),
        ensures
            is_opened(
                source,
                data_size,
                exe_info,
                content_type,
                game_title,
                signed,
                device_id,
                r,
            ),
    {
        let content_type = match resolve_god_content_type(signed, content_type) {
            Ok(c) => c,
            Err(e) => {
                return Err(e);
            },
        };
        let blocks: u64 = data_size / BLOCK_SIZE + (if data_size % BLOCK_SIZE == 0 {
            0
        } else {
            1
        });
        let parts: u64 = (blocks + (BLOCKS_PER_PART - 1)) / BLOCKS_PER_PART;
        if parts > 0xFFFF_FFFF {
            return Err(GodWriteError::TooManyParts);
        }
        if blocks > 0xFFFF_FFFF {
            return Err(GodWriteError::ImageTooLarge);
        }
        let part_count: u32 = parts as u32;
        let s = GodSession {
            source,
            data_size,
            part_count,
            block_count: blocks as u32,
            exe_info,
            content_type,
            game_title,
            device_id,
            parts: Vec::new(),
            raw_mhts: Vec::new(),
            chained_mhts: Vec::new(),
            master_digest: [0u8; 20],
            last_part_size: 0,
            next_hash_part: 0,
            hashing_done: part_count == 0,
            current_part_index: 0,
            current_subpart_index: 0,
            part_header_emitted: false,
            header_emitted: false,
            last_entry_name: None,
            written: Ghost(Seq::empty()),
        };
        assert(s.master_digest@ =~= zeros(20));
        Ok(s)
    }

    /// How much of the data there is.
    fn available(&self) -> (r: u64)
        requires
            self.source.valid(),
        ensures
            r == self.size(),
    {
        let held: u64 = self.source.size();
        if self.data_size <= held {
            self.data_size
        } else {
            held
        }
    }

    /// Reads subpart `s` of part `p`.
    fn read_subpart(&mut self, p: u32, s: u32) -> (r: Result<Vec<u8>, ReadError>)
        requires
            old(self).wf(),
            p < old(self).part_count,
            s < subparts(old(self).size(), p as int),
        ensures
            final(self).wf(),
            final(self).same_package(old(self)),
            *final(self) == (GodSession { source: final(self).source, ..*old(self) }),
            r matches Ok(v) ==> v@ == subpart(
                old(self).img(),
                old(self).size(),
                p as int,
                s as int,
            ) && 0 < v@.len() <= 0xcc000,
            r is Err ==> !old(self).source.reliable(),
    {
        let start: u64 = p as u64 * PART_SIZE + s as u64 * SUBPART_SIZE;
        let size: u64 = self.available();
        let want: u64 = if size - start < SUBPART_SIZE {
            size - start
        } else {
            SUBPART_SIZE
        };
        self.source.read_at(start, want as usize)
    }

    /// How many subparts part `p` has.
    fn subpart_count(&self, p: u32) -> (r: u32)
        requires
            self.wf(),
            p < self.part_count,
        ensures
            r == subparts(self.size(), p as int),
            r <= 0xcb,
    {
        let size: u64 = self.available();
        if size <= p as u64 * PART_SIZE {
            return 0;
        }
        let left: u64 = size - p as u64 * PART_SIZE;
        if left >= PART_SIZE {
            SUBPARTS_PER_PART
        } else {
            ((left + (SUBPART_SIZE - 1)) / SUBPART_SIZE) as u32
        }
    }

    /// Hashes one more part; true once all are hashed and their hash blocks chained.
    pub fn hash_next_part(&mut self) -> (r: Result<bool, GodWriteError>)
        requires
            old(self).wf(),
        ensures
            hash_step(*old(self), *final(self), r),
    {
        if self.hashing_done {
            return Ok(true);
        }
        let ghost img = self.img();
        let ghost size = self.size();
        let p: u32 = self.next_hash_part;
        let count: u32 = self.subpart_count(p);
        let mut hashes = PartHashes { tables: Vec::new(), sizes: Vec::new() };
        let mut master = HashList::new();
        let mut s: u32 = 0;
        assert(master_hashes(img, size, p as int, 0) =~= Seq::empty());
        while s < count
            invariant
                self.wf(),
                self.same_package(old(self)),
                *self == (GodSession { source: self.source, ..*old(self) }),
                !old(self).hashing_done,
                img == self.img(),
                size == self.size(),
                p == self.next_hash_part,
                p < self.part_count,
                count == subparts(size, p as int),
                s <= count <= 0xcb,
                hashes.matches(img, size, p as int, s as int),
                forall|j: int| 0 <= j < s ==> #[trigger] hashes.sizes@[j] <= 0xcc000,
                holds(master, master_hashes(img, size, p as int, s as int)),
            decreases count - s,
        {
            let data = match self.read_subpart(p, s) {
                Ok(v) => v,
                Err(e) => {
                    return Err(GodWriteError::Read(e));
                },
            };
            let table = hash_blocks(data.as_slice());
            master.add_block_hash(table.bytes().as_slice());
            proof {
                assert(master_hashes(img, size, p as int, s + 1) =~= master_hashes(
                    img,
                    size,
                    p as int,
                    s as int,
                ).push(sha1_of(table.buffer@)));
            }
            let ghost before = hashes;
            hashes.sizes.push(data.len() as u64);
            hashes.tables.push(table);
            s = s + 1;
        }
        let last = p == self.part_count - 1;
        if last {
            self.last_part_size = hashes.actual_size(Ghost(img), Ghost(size), Ghost(p as int));
        }
        let ghost before = self.parts@;
        let ghost raws = self.raw_mhts@;
        self.parts.push(hashes);
        self.raw_mhts.push(master);
        self.next_hash_part = p + 1;
        proof {
            assert forall|q: int| 0 <= q < self.parts@.len() implies (
            #[trigger] self.parts@[q]).matches(img, size, q, subparts(size, q)) by {
                if q < before.len() {
                    assert(self.parts@[q] == before[q]);
                }
            }
            assert forall|q: int| 0 <= q < self.raw_mhts@.len() implies (
            #[trigger] self.raw_mhts@[q]).buffer@ == master_table(img, size, q) by {
                if q < raws.len() {
                    assert(self.raw_mhts@[q] == raws[q]);
                }
            }
        }
        if self.next_hash_part == self.part_count {
            let (chained, digest) = chain_tables(
                &self.raw_mhts,
                Ghost(img),
                Ghost(size),
            );
            self.chained_mhts = chained;
            self.master_digest = digest;
            self.raw_mhts = Vec::new();
            self.hashing_done = true;
        }
        Ok(self.hashing_done)
    }
}

/// Chains the master hash blocks back to front, and gives the digest of the first.
fn chain_tables(raw: &Vec<HashList>, Ghost(img): Ghost<Seq<u8>>, Ghost(size): Ghost<int>) -> (r: (
    Vec<Vec<u8>>,
    [u8; 20],
))
    requires
        raw@.len() >= 1,
        forall|p: int|
            0 <= p < raw@.len() ==> (#[trigger] raw@[p]).buffer@ == master_table(img, size, p),
    ensures
        r.0@.len() == raw@.len(),
        forall|p: int|
            0 <= p < raw@.len() ==> (#[trigger] r.0@[p])@ == chained_table(
                img,
                size,
                raw@.len() as int,
                p,
            ),
        r.1@ == sha1_of(chained_table(img, size, raw@.len() as int, 0)),
{
    let n: usize = raw.len();
    let mut backwards: Vec<Vec<u8>> = Vec::new();
    let mut digest: [u8; 20] = raw[n - 1].digest();
    let mut first: Vec<u8> = Vec::new();
    raw[n - 1].write(&mut first);
    assert(first@ =~= chained_table(img, size, n as int, n - 1));
    backwards.push(first);
    let mut p: usize = n - 1;
    while p > 0
        invariant
            p < n == raw@.len(),
            forall|q: int|
                0 <= q < n ==> (#[trigger] raw@[q]).buffer@ == master_table(img, size, q),
            backwards@.len() == n - p,
            forall|k: int|
                0 <= k < backwards@.len() ==> (#[trigger] backwards@[k])@ == chained_table(
                    img,
                    size,
                    n as int,
                    n - 1 - k,
                ),
            digest@ == sha1_of(chained_table(img, size, n as int, p as int)),
        decreases p,
    {
        p = p - 1;
        let ghost m = master_table(img, size, p as int);
        proof {
            assert(raw@[p as int].buffer@ == m);
            assert(m.take(4096) =~= m);
            lemma_used_bound(master_hashes(img, size, p as int, subparts(size, p as int)), 0);
        }
        match HashList::read(raw[p].bytes().as_slice()) {
            Ok(l) => {
                let mut l = l;
                l.add_hash(&digest);
                let mut out: Vec<u8> = Vec::new();
                l.write(&mut out);
                assert(out@ =~= chained_table(img, size, n as int, p as int));
                backwards.push(out);
                digest = l.digest();
            },
            Err(_) => {
                assert(false);
            },
        }
    }
    let mut r: Vec<Vec<u8>> = Vec::new();
    let mut k: usize = 0;
    while k < n
        invariant
            k <= n,
            backwards@.len() == n - k,
            r@.len() == k,
            forall|j: int|
                0 <= j < backwards@.len() ==> (#[trigger] backwards@[j])@ == chained_table(
                    img,
                    size,
                    n as int,
                    n - 1 - j,
                ),
            forall|j: int|
                0 <= j < k ==> (#[trigger] r@[j])@ == chained_table(img, size, n as int, j),
        decreases n - k,
    {
        match backwards.pop() {
            Some(t) => {
                r.push(t);
            },
            None => {},
        }
        k = k + 1;
    }
    (r, digest)
}

/// The path of a package: title, content type and media in hexadecimal. An original Xbox title
/// has its title id for its media id.
pub open spec fn path_prefix(info: TitleExecutionInfo, content_type: ContentType) -> Seq<char> {
    hex_digits(info.title_id as nat, 8) + "/"@ + hex_digits(content_type.value() as nat, 8) + "/"@
        + hex_digits(
        (if content_type == ContentType::XboxOriginal {
            info.title_id
        } else {
            info.media_id
        }) as nat,
        8,
    )
}

/// The path of part `p` of a package.
pub open spec fn part_path(prefix: Seq<char>, p: int) -> Seq<char> {
    prefix + ".data/Data"@ + decimal4(p as nat)
}

/// What a call for the next piece of the output makes of session `a`: session `b` and the
/// result `r`.
pub open spec fn chunk_step<S: ByteSource>(
    a: GodSession<S>,
    b: GodSession<S>,
    max_bytes: usize,
    r: Result<Option<GodChunk>, GodWriteError>,
) -> bool {
    &&& b.wf()
    &&& b.same_package(&a)
    &&& b.hashing_done == a.hashing_done
    &&& r == Err::<Option<GodChunk>, GodWriteError>(GodWriteError::HashingUnfinished)
        <==> !a.hashing_done
    &&& !a.hashing_done ==> b == a
    &&& a.hashing_done ==> match r {
        Ok(None) => a.header_emitted && b == a,
        Ok(Some(GodChunk::Header(h))) => {
            &&& !a.header_emitted && b.header_emitted
            &&& a.is_header(h)
            &&& a.current_part_index == a.n() || (a.current_part_index == a.n() - 1 && a.part_is_over())
            &&& b.last_entry_name matches Some(name) && name@ == a.prefix()
        },
        Ok(Some(GodChunk::Data(c))) => {
            let p = b.current_part_index as int;
            &&& p < a.n()
            &&& b.last_entry_name matches Some(name) && name@ == part_path(
                a.prefix(),
                p,
            )
            &&& if a.part_is_over() || !a.part_header_emitted {
                &&& c@ == chained_table(a.img(), a.size(), a.n(), p)
                &&& b.part_header_emitted
                &&& b.current_subpart_index == 0
            } else {
                let data = subpart(
                    a.img(),
                    a.size(),
                    p,
                    a.current_subpart_index as int,
                );
                &&& c@ == sub_table(data) + data
                &&& b.part_header_emitted
                &&& b.current_subpart_index == a.current_subpart_index
                    + 1
            }
            &&& if a.part_is_over() {
                &&& p == a.current_part_index + 1
                &&& a.written@ == part_image(
                    a.img(),
                    a.size(),
                    a.n(),
                    a.current_part_index as int,
                )
                &&& b.written@ == c@
            } else {
                &&& p == a.current_part_index
                &&& b.written@ == a.written@ + c@
            }
        },
        Err(e) => {
            &&& e is Read
            &&& !a.source.reliable()
            &&& b.header_emitted == a.header_emitted
            &&& b.current_part_index == a.current_part_index
            &&& b.current_subpart_index == a.current_subpart_index
            &&& b.part_header_emitted == a.part_header_emitted
            &&& b.last_entry_name == a.last_entry_name
            &&& b.written@ == a.written@
        },
    }
}

impl<S: ByteSource> GodSession<S> {
    pub open spec fn prefix(&self) -> Seq<char> {
        path_prefix(self.exe_info, self.content_type)
    }

    fn output_path_prefix(&self) -> (r: String)
        ensures
            r@ == self.prefix(),
    {
        let media: u32 = if self.content_type == ContentType::XboxOriginal {
            self.exe_info.title_id
        } else {
            self.exe_info.media_id
        };
        let mut r = String::new();
        push_hex(&mut r, self.exe_info.title_id as u64, 8);
        r.append("/");
        push_hex(&mut r, self.content_type.as_u32() as u64, 8);
        r.append("/");
        push_hex(&mut r, media as u64, 8);
        assert(r@ =~= self.prefix());
        r
    }

    fn part_entry_name(&self, p: u32) -> (r: String)
        ensures
            r@ == part_path(self.prefix(), p as int),
    {
        let mut r = self.output_path_prefix();
        r.append(".data/Data");
        push_decimal4(&mut r, p as u64);
        r
    }

    /// `h` is the header of this package: all parts together have `parts_size` bytes.
    pub open spec fn is_header(&self, h: GodHeader) -> bool {
        &&& h.block_count == self.block_count
        &&& h.part_count == self.part_count
        &&& h.parts_size == (if self.n() == 0 {
            0
        } else {
            (self.n() - 1) * 0x1000 * 0xa290 + part_image(
                self.img(),
                self.size(),
                self.n(),
                self.n() - 1,
            ).len()
        })
        &&& h.content_type == self.content_type.value()
        &&& h.execution_info == self.exe_info
        &&& h.mht_hash == self.master_digest
        &&& h.device_id == self.device_id
        &&& match h.game_title {
            Some(t) => self.game_title matches Some(u) && t@ == u@,
            None => self.game_title is None,
        }
    }

    fn header(&self) -> (r: GodHeader)
        requires
            self.wf(),
            self.hashing_done,
        ensures
            self.is_header(r),
    {
        let n: u64 = self.part_count as u64;
        proof {
            if n > 0 {
                lemma_table_len(self.img(), self.size(), self.n(), self.n() - 1);
                lemma_body_bound(
                    self.img(),
                    self.size(),
                    self.n() - 1,
                    subparts(self.size(), self.n() - 1),
                );
            }
        }
        let full: u64 = if n == 0 {
            0
        } else {
            (n - 1) * BLOCK_SIZE * FULL_PART_BLOCKS
        };
        GodHeader {
            block_count: self.block_count,
            part_count: self.part_count,
            parts_size: self.last_part_size + full,
            content_type: self.content_type.as_u32(),
            execution_info: self.exe_info,
            mht_hash: self.master_digest,
            device_id: self.device_id,
            game_title: match &self.game_title {
                Some(t) => Some(t.clone()),
                None => None,
            },
        }
    }

    /// Everything of the current part has been emitted.
    pub open spec fn part_is_over(&self) -> bool {
        &&& self.part_header_emitted
        &&& self.current_subpart_index == subparts(self.size(), self.current_part_index as int)
    }

    /// The next piece of the package: of each part its master hash block, then each subpart
    /// with its hash block; last the header. What is emitted of a part is the part, from its
    /// start to its end.
    pub fn next_chunk(&mut self, _max_bytes: usize) -> (r: Result<Option<GodChunk>, GodWriteError>)
        requires
            old(self).wf(),
        ensures
            chunk_step(*old(self), *final(self), _max_bytes, r),
    {
        if !self.hashing_done {
            return Err(GodWriteError::HashingUnfinished);
        }
        if self.header_emitted {
            return Ok(None);
        }
        let ghost img = self.img();
        let ghost size = self.size();
        let ghost n = self.n();
        if self.current_part_index < self.part_count && self.part_header_emitted
            && self.current_subpart_index >= self.subpart_count(self.current_part_index) {
            assert(self.part_is_over());
            self.current_part_index = self.current_part_index + 1;
            self.current_subpart_index = 0;
            self.part_header_emitted = false;
            proof {
                self.written@ = Seq::empty();
            }
        }
        let p: u32 = self.current_part_index;
        if p >= self.part_count {
            let h = self.header();
            self.header_emitted = true;
            self.last_entry_name = Some(self.output_path_prefix());
            return Ok(Some(GodChunk::Header(h)));
        }
        if !self.part_header_emitted {
            let table = &self.chained_mhts[p as usize];
            let chunk = copy_range(table.as_slice(), 0, table.len());
            assert(chunk@ =~= chained_table(img, size, n, p as int));
            self.part_header_emitted = true;
            self.last_entry_name = Some(self.part_entry_name(p));
            proof {
                self.written@ = chunk@;
                assert(chunk@ + part_body(img, size, p as int, 0) =~= chunk@);
                assert(Seq::<u8>::empty() + chunk@ =~= chunk@);
            }
            return Ok(Some(GodChunk::Data(chunk)));
        }
        let s: u32 = self.current_subpart_index;
        let ghost before = self.written@;
        let data = match self.read_subpart(p, s) {
            Ok(v) => v,
            Err(e) => {
                return Err(GodWriteError::Read(e));
            },
        };
        let mut chunk: Vec<u8> = Vec::new();
        assert(self.parts@[p as int].matches(img, size, p as int, subparts(size, p as int)));
        put_slice(&mut chunk, self.parts[p as usize].tables[s as usize].bytes().as_slice());
        put_slice(&mut chunk, data.as_slice());
        self.current_subpart_index = s + 1;
        self.last_entry_name = Some(self.part_entry_name(p));
        proof {
            self.written@ = before + chunk@;
            assert(chunk@ =~= sub_table(data@) + data@);
            assert(self.written@ =~= chained_table(img, size, n, p as int) + part_body(
                img,
                size,
                p as int,
                s + 1,
            ));
        }
        Ok(Some(GodChunk::Data(chunk)))
    }

    pub fn is_done(&self) -> (r: bool)
        ensures
            r == self.header_emitted,
    {
        self.header_emitted
    }

    /// The name of the entry that the last chunk belongs to.
    pub fn current_entry_name(&self) -> (r: Option<&str>)
        ensures
            match (r, self.last_entry_name) {
                (Some(s), Some(name)) => s@ == name@,
                (None, None) => true,
                _ => false,
            },
    {
        match &self.last_entry_name {
            Some(name) => Some(name.as_str()),
            None => None,
        }
    }

    /// Progress is counted in parts.
    pub fn total_units(&self) -> (r: u64)
        ensures
            r == self.part_count,
    {
        self.part_count as u64
    }

    /// Path and size of every part, and of the header, whose size is given.
    pub fn output_manifest(&self, header_size: u64) -> (r: Vec<(String, u64)>)
        requires
            self.wf(),
        ensures
            r@.len() == self.part_count + 1,
            forall|p: int|
                0 <= p < self.part_count ==> (#[trigger] r@[p]).0@ == part_path(self.prefix(), p)
                    && r@[p].1 == planned_part_size(self.data_size as int, p),
            r@.last().0@ == self.prefix(),
            r@.last().1 == header_size,
    {
        let mut r: Vec<(String, u64)> = Vec::new();
        let mut p: u32 = 0;
        while p < self.part_count
            invariant
                p <= self.part_count,
                self.wf(),
                r@.len() == p,
                forall|q: int|
                    0 <= q < p ==> (#[trigger] r@[q]).0@ == part_path(self.prefix(), q)
                        && r@[q].1 == planned_part_size(self.data_size as int, q),
            decreases self.part_count - p,
        {
            let left: u64 = self.data_size - p as u64 * PART_SIZE;
            let data: u64 = if left < PART_SIZE {
                left
            } else {
                PART_SIZE
            };
            let count: u64 = (data + (SUBPART_SIZE - 1)) / SUBPART_SIZE;
            r.push((self.part_entry_name(p), MHT_SIZE as u64 + count * BLOCK_SIZE + data));
            p = p + 1;
        }
        r.push((self.output_path_prefix(), header_size));
        r
    }
}

/// A master hash block is one block.
pub proof fn lemma_table_len(img: Seq<u8>, size: int, n: int, p: int)
    ensures
        chained_table(img, size, n, p).len() == 4096,
    decreases n - p,
{
}

/// The size of part `p` of `size` bytes of data: its hash blocks and its share of the data.
pub open spec fn planned_part_size(size: int, p: int) -> int {
    let left = size - p * 0xa1c4000;
    4096 + subparts(size, p) * 0x1000 + (if left < 0xa1c4000 {
        left
    } else {
        0xa1c4000
    })
}

proof fn lemma_body_bound(img: Seq<u8>, size: int, p: int, k: int)
    requires
        0 <= p,
        0 <= k <= subparts(size, p),
        size <= img.len(),
    ensures
        part_body(img, size, p, k).len() <= k * 0xcd000,
    decreases k,
{
    if k > 0 {
        lemma_body_bound(img, size, p, k - 1);
        assert(p * 0xa1c4000 + (k - 1) * 0xcc000 < size);
        assert(subpart(img, size, p, k - 1).len() <= 0xcc000);
        assert(sub_table(subpart(img, size, p, k - 1)).len() == 4096);
    }
}

/// The first `k` subparts of a part take their data and a hash block each.
pub proof fn lemma_body_len(img: Seq<u8>, size: int, p: int, k: int)
    requires
        0 <= p,
        0 <= k <= subparts(size, p),
        p * 0xa1c4000 < size <= img.len(),
    ensures
        p * 0xa1c4000 + k * 0xcc000 - 0xcc000 < size,
        part_body(img, size, p, k).len() == k * 0x1000 + (if p * 0xa1c4000 + k * 0xcc000 <= size {
            k * 0xcc000
        } else {
            size - p * 0xa1c4000
        }),
    decreases k,
{
    if k > 0 {
        lemma_body_len(img, size, p, k - 1);
        let start = p * 0xa1c4000 + (k - 1) * 0xcc000;
        assert(start < size);
        assert(subpart(img, size, p, k - 1).len() == (if start + 0xcc000 < size {
            0xcc000
        } else {
            size - start
        }));
        assert(sub_table(subpart(img, size, p, k - 1)).len() == 4096);
    }
}

/// The size of the first `k` parts together.
pub open spec fn parts_len(img: Seq<u8>, size: int, n: int, k: int) -> int
    decreases k,
{
    if k <= 0 {
        0
    } else {
        parts_len(img, size, n, k - 1) + part_image(img, size, n, k - 1).len()
    }
}

/// Where the image holds all of the data, the parts have the sizes that were planned, and the
/// header gives their sum.
pub proof fn parts_have_their_planned_sizes(img: Seq<u8>, size: int, n: int, k: int)
    requires
        0 <= k <= n,
        n == part_count_of(size),
        size <= img.len(),
    ensures
        k < n ==> part_image(img, size, n, k).len() == planned_part_size(size, k),
        k < n ==> parts_len(img, size, n, k) == k * 0x1000 * 0xa290,
        k == n && n > 0 ==> parts_len(img, size, n, n) == (n - 1) * 0x1000 * 0xa290 + part_image(
            img,
            size,
            n,
            n - 1,
        ).len(),
    decreases k,
{
    if k < n {
        lemma_table_len(img, size, n, k);
        lemma_body_len(img, size, k, subparts(size, k));
    }
    if k > 0 {
        parts_have_their_planned_sizes(img, size, n, k - 1);
        if k < n {
            assert(subparts(size, k - 1) == 0xcb);
        }
    }
}

/// Where a subpart's data stands behind the master hash block.
pub proof fn lemma_subpart_at(img: Seq<u8>, size: int, p: int, s: int, k: int)
    requires
        0 <= p,
        0 <= s < k <= subparts(size, p),
        size <= img.len(),
    ensures
        ({
            let d = subpart(img, size, p, s);
            let at = s * 0xcd000 + 0x1000;
            &&& at + d.len() <= part_body(img, size, p, k).len()
            &&& part_body(img, size, p, k).subrange(at, at + d.len()) == d
        }),
    decreases k,
{
    let d = subpart(img, size, p, s);
    let at = s * 0xcd000 + 0x1000;
    let all = part_body(img, size, p, k);
    if s == k - 1 {
        lemma_body_len(img, size, p, s);
        lemma_body_len(img, size, p, k);
        assert(part_body(img, size, p, s).len() == s * 0xcd000);
        assert(all.subrange(at, at + d.len()) =~= d);
    } else {
        lemma_subpart_at(img, size, p, s, k - 1);
        assert(all.subrange(at, at + d.len()) =~= part_body(img, size, p, k - 1).subrange(
            at,
            at + d.len(),
        ));
    }
}

/// Every whole sector of the data is read back from where a reader looks for it.
pub proof fn sector_reads_back(img: Seq<u8>, size: int, n: int, sector: int)
    requires
        0 <= sector,
        (sector + 1) * 2048 <= size <= img.len(),
        n == part_count_of(size),
    ensures
        ({
            let p = part_of_sector(sector);
            let b = part_image(img, size, n, p);
            &&& 0 <= p < n
            &&& offset_of_sector(sector) + 2048 <= b.len()
            &&& field(b, offset_of_sector(sector), 2048) == img.subrange(
                sector * 2048,
                sector * 2048 + 2048,
            )
        }),
{
    let p = part_of_sector(sector);
    let block = sector / 2 % 0xa1c4;
    let s = block / 0xcc;
    let r = block % 0xcc;
    let b = part_image(img, size, n, p);
    let off = offset_of_sector(sector);
    assert(sector / 2 == p * 0xa1c4 + block);
    assert(block == s * 0xcc + r);
    assert(s < 0xcb);
    assert(sector * 2048 == p * 0xa1c4000 + s * 0xcc000 + r * 0x1000 + sector % 2 * 2048);
    let within = r * 0x1000 + sector % 2 * 2048;
    assert(0 <= within && within + 2048 <= 0xcc000);
    assert(s < subparts(size, p));
    lemma_table_len(img, size, n, p);
    lemma_subpart_at(img, size, p, s, subparts(size, p));
    let d = subpart(img, size, p, s);
    let at = s * 0xcd000 + 0x1000;
    assert(off == 4096 + at + within);
    let body = part_body(img, size, p, subparts(size, p));
    assert forall|i: int| 0 <= i < 2048 implies field(b, off, 2048)[i] == img[sector * 2048
        + i] by {
        assert(b[off + i] == body[at + within + i]);
        assert(body.subrange(at, at + d.len())[within + i] == d[within + i]);
    }
    assert(field(b, off, 2048) =~= img.subrange(sector * 2048, sector * 2048 + 2048));
}

/// A reader counts the sectors of a package of whole blocks right.
pub proof fn sectors_are_counted(img: Seq<u8>, size: int, n: int)
    requires
        0 < size <= img.len(),
        size % 0x1000 == 0,
        n == part_count_of(size),
    ensures
        crate::god::read::sectors_by_size(n, part_image(img, size, n, n - 1).len() as int) * 2048
            == size,
{
    let p = n - 1;
    let k = subparts(size, p);
    let left = size - p * 0xa1c4000;
    lemma_table_len(img, size, n, p);
    assert(0 < left <= 0xa1c4000);
    assert(k == ceil_div(left, 0xcc000));
    lemma_body_len(img, size, p, k);
    let blocks = left / 0x1000;
    assert(left == blocks * 0x1000);
    assert(k == ceil_div(blocks, 0xcc));
    let len = part_image(img, size, n, p).len() as int;
    assert(len == 0x1000 + k * 0x1000 + blocks * 0x1000);
    assert(len / 0x1000 == 1 + k + blocks);
    assert(ceil_div(k + blocks, 0xcd) == k);
}

/// A package reads back sector by sector, out of whichever part each was stored in.
pub proof fn image_reads_back<S: ByteSource>(
    g: GodSource<S>,
    img: Seq<u8>,
    size: int,
    n: int,
    sector: int,
)
    requires
        0 <= sector,
        (sector + 1) * 2048 <= size <= img.len(),
        n == part_count_of(size),
        g.parts@.len() == n,
        forall|p: int|
            0 <= p < n ==> (#[trigger] g.parts@[p]).bytes() == part_image(img, size, n, p),
    ensures
        g.image_sector(sector) == Ok::<Seq<u8>, GodReadError>(
            img.subrange(sector * 2048, sector * 2048 + 2048),
        ),
{
    sector_reads_back(img, size, n, sector);
}

/// A package of whole blocks, read again as one file, is the image it was written from.
pub proof fn decoded_image_is_the_image<S: ByteSource>(
    g: GodSource<S>,
    img: Seq<u8>,
    size: int,
    n: int,
)
    requires
        0 < size <= img.len(),
        size % 0x1000 == 0,
        n == part_count_of(size),
        g.parts@.len() == n,
        g.total == crate::god::read::sectors_by_size(n, g.parts@.last().bytes().len() as int),
        forall|p: int|
            0 <= p < n ==> (#[trigger] g.parts@[p]).bytes() == part_image(img, size, n, p),
    ensures
        image_bytes(g) == img.take(size),
{
    sectors_are_counted(img, size, n);
    assert(g.parts@.last() == g.parts@[n - 1]);
    assert(g.total * 2048 == size);
    assert forall|i: int| 0 <= i < size implies image_bytes(g)[i] == img[i] by {
        let s = i / 2048;
        image_reads_back(g, img, size, n, s);
        assert(g.image_sector(s) == Ok::<Seq<u8>, GodReadError>(
            img.subrange(s * 2048, s * 2048 + 2048),
        ));
    }
    assert(image_bytes(g) =~= img.take(size));
}

} // verus!
