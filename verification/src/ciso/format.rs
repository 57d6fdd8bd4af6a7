//! Header, index entries, names and stored sectors of `.cso` images.
use crate::bytes::{
    copy_range, field, le_bytes, le_val, put_le, put_slice, put_zeros, round_up, zeros,
};
use crate::lz4::{
    lz4_frame, lz4_frame_compress, lz4_frame_decoded, lz4_frame_decompress, lz4_frame_head,
};
use crate::utils::text::{decimal, decimal_tells_apart, push_decimal};
use vstd::prelude::*;
use vstd::string::*;

verus! {

broadcast use crate::bytes::group_fields;

pub const SECTOR_SIZE: u64 = 2048;

/// Sectors sized per call.
pub const SIZING_BATCH_SECTORS: u64 = 256;

/// A part that has reached this size ends before the next sector.
pub const FILE_SPLIT_POINT: u64 = 0xffbf_6000;

/// Every part's size is a multiple of this.
pub const FILE_PADDING_MODULUS: u64 = 0x400;

/// Size of the header.
pub const HEADER_SIZE: u64 = 24;

pub fn ciso_sizing_batch_sectors() -> (r: u32)
    ensures
        r == SIZING_BATCH_SECTORS,
{
    SIZING_BATCH_SECTORS as u32
}

pub fn ciso_sector_size() -> (r: u32)
    ensures
        r == SECTOR_SIZE,
{
    SECTOR_SIZE as u32
}

/// The size at which a part ends.
pub fn ciso_file_split_point() -> (r: u32)
    ensures
        r == FILE_SPLIT_POINT,
{
    FILE_SPLIT_POINT as u32
}

pub fn ciso_file_padding_modulus() -> (r: u32)
    ensures
        r == FILE_PADDING_MODULUS,
{
    FILE_PADDING_MODULUS as u32
}

/// `base.N.cso`, counted from one.
pub open spec fn split_name(base: Seq<char>, index: int) -> Seq<char> {
    base + "."@ + decimal((index + 1) as nat) + ".cso"@
}

/// The name of part `index` of `total`: numbered only if there is more than one.
pub open spec fn output_name(base: Seq<char>, index: int, total: int) -> Seq<char> {
    if total <= 1 {
        base + ".cso"@
    } else {
        split_name(base, index)
    }
}

/// No two parts have the same name.
pub proof fn output_names_differ(base: Seq<char>, a: int, b: int, total: int)
    requires
        0 <= a < b < total,
    ensures
        output_name(base, a, total) != output_name(base, b, total),
{
    let x = output_name(base, a, total);
    let y = output_name(base, b, total);
    if x == y {
        let i = decimal((a + 1) as nat);
        let j = decimal((b + 1) as nat);
        let from = (base + "."@).len() as int;
        assert(x.len() == from + i.len() + ".cso"@.len());
        assert(y.len() == from + j.len() + ".cso"@.len());
        assert(x.subrange(from, from + i.len()) =~= i);
        assert(y.subrange(from, from + j.len()) =~= j);
        decimal_tells_apart((a + 1) as nat, (b + 1) as nat);
    }
}

pub fn split_name_for(base_name: &str, index: u64) -> (r: String)
    requires
        index < u64::MAX,
    ensures
        r@ == split_name(base_name@, index as int),
{
    let mut r = base_name.to_owned();
    r.append(".");
    push_decimal(&mut r, index + 1);
    r.append(".cso");
    r
}

pub fn output_name_for(base_name: &str, index: u64, total_parts: usize) -> (r: String)
    requires
        index < u64::MAX,
    ensures
        r@ == output_name(base_name@, index as int, total_parts as int),
{
    if total_parts <= 1 {
        let mut r = base_name.to_owned();
        r.append(".cso");
        r
    } else {
        split_name_for(base_name, index)
    }
}

/// `size` rounded up to a multiple of the padding modulus.
pub fn padded_part_size(size: u64) -> (r: u64)
    requires
        size <= u64::MAX - 0x3FF,
    ensures
        r == round_up(size as int, 0x400),
        r % 0x400 == 0,
        size <= r < size + 0x400,
{
    let rem: u64 = size % FILE_PADDING_MODULUS;
    if rem == 0 {
        size
    } else {
        size + (FILE_PADDING_MODULUS - rem)
    }
}

/// One index entry: a position in its low 31 bits, the top bit for compression.
#[derive(Clone, Copy, Debug, PartialEq, Eq, Structural)]
pub struct IndexTableEntry {
    pub raw: u32,
}

impl IndexTableEntry {
    pub open spec fn pos(self) -> int {
        self.raw as int % 0x8000_0000
    }

    pub open spec fn is_compressed(self) -> bool {
        self.raw >= 0x8000_0000
    }

    pub fn new(position: u32, compression_type: bool) -> (r: IndexTableEntry)
        requires
            position < 0x8000_0000,
        ensures
            r.pos() == position,
            r.is_compressed() == compression_type,
    {
        IndexTableEntry {
            raw: if compression_type {
                position + 0x8000_0000
            } else {
                position
            },
        }
    }

    pub fn position(self) -> (r: u32)
        ensures
            r == self.pos(),
    {
        self.raw % 0x8000_0000
    }

    pub fn compression_type(self) -> (r: bool)
        ensures
            r == self.is_compressed(),
    {
        self.raw >= 0x8000_0000
    }
}

/// The first `k` entries of an index, little-endian.
pub open spec fn index_bytes(table: Seq<IndexTableEntry>, k: int) -> Seq<u8>
    decreases k,
{
    if k <= 0 {
        Seq::empty()
    } else {
        index_bytes(table, k - 1) + le_bytes(table[k - 1].raw as nat, 4)
    }
}

pub fn serialize_index_table(table: &[IndexTableEntry]) -> (r: Vec<u8>)
    ensures
        r@ == index_bytes(table@, table@.len() as int),
{
    let mut out: Vec<u8> = Vec::new();
    let mut i: usize = 0;
    while i < table.len()
        invariant
            i <= table@.len(),
            out@ == index_bytes(table@, i as int),
        decreases table@.len() - i,
    {
        put_le(&mut out, table[i].raw as u64, 4);
        i = i + 1;
    }
    out
}

pub proof fn index_entry_reads_back(table: Seq<IndexTableEntry>, i: int, k: int)
    requires
        0 <= i < k <= table.len(),
    ensures
        index_bytes(table, k).len() == 4 * k,
        le_val(field(index_bytes(table, k), i * 4, 4)) == table[i].raw,
    decreases k,
{
    lemma_index_len(table, k);
    lemma_index_len(table, k - 1);
    let all = index_bytes(table, k);
    if i == k - 1 {
        assert(field(all, i * 4, 4) =~= le_bytes(table[i].raw as nat, 4));
        crate::bytes::lemma_pow256();
        crate::bytes::lemma_le_round_trip(table[i].raw as nat, 4);
    } else {
        index_entry_reads_back(table, i, k - 1);
        assert(field(all, i * 4, 4) =~= field(index_bytes(table, k - 1), i * 4, 4));
    }
}

pub proof fn lemma_index_len(table: Seq<IndexTableEntry>, k: int)
    requires
        0 <= k,
    ensures
        index_bytes(table, k).len() == 4 * k,
    decreases k,
{
    if k > 0 {
        lemma_index_len(table, k - 1);
    }
}

/// What a header says.
#[derive(Clone, Copy, Debug, PartialEq, Eq, Structural)]
pub struct CsoFields {
    pub uncompressed_size: u64,
    pub block_size: u32,
    pub alignment: u8,
}

/// Why a header was refused.
#[derive(Clone, Copy, Debug, PartialEq, Eq, Structural)]
pub enum CsoHeaderError {
    UnsupportedVersion,
    InvalidHeader,
}

/// The header in 24 bytes: magic `CISO`, header size, uncompressed size, block size, version,
/// alignment and two reserved bytes, little-endian. The version is looked at first.
pub open spec fn cso_header_of(b: Seq<u8>) -> Result<CsoFields, CsoHeaderError> {
    if b[20] != 2 {
        Err(CsoHeaderError::UnsupportedVersion)
    } else if le_val(field(b, 0, 4)) != 0x4F53_4943 || le_val(field(b, 4, 4)) != 24 {
        Err(CsoHeaderError::InvalidHeader)
    } else {
        Ok(
            CsoFields {
                uncompressed_size: le_val(field(b, 8, 8)) as u64,
                block_size: le_val(field(b, 16, 4)) as u32,
                alignment: b[21],
            },
        )
    }
}

/// The header of an image of this size: version 2, blocks of a sector, alignment 2.
pub open spec fn cso_header_bytes(uncompressed_size: u64) -> Seq<u8> {
    le_bytes(0x4F53_4943, 4) + le_bytes(24, 4) + le_bytes(uncompressed_size as nat, 8) + le_bytes(
        2048,
        4,
    ) + seq![2u8, 2, 0, 0]
}

/// `ciso::layout::CSOHeader::deserialize`: refuses another version, then another magic or
/// header size, and else gives the fields.
#[verifier::external_body]
pub(crate) fn cso_deserialize(b: &[u8; 24]) -> (r: Result<CsoFields, CsoHeaderError>)
    ensures
        r == cso_header_of(b@),
{
    match ciso::layout::CSOHeader::deserialize::<()>(b) {
        Ok(h) => Ok(
            CsoFields {
                uncompressed_size: h.uncompressed_size,
                block_size: h.block_size,
                alignment: h.alignment,
            },
        ),
        Err(ciso::layout::Error::UnsupportedVersion) => Err(CsoHeaderError::UnsupportedVersion),
        Err(_) => Err(CsoHeaderError::InvalidHeader),
    }
}

/// `ciso::layout::CSOHeader::serialize` on a new header of this size.
#[verifier::external_body]
pub(crate) fn cso_serialize(uncompressed_size: u64) -> (r: [u8; 24])
    ensures
        r@ == cso_header_bytes(uncompressed_size),
{
    ciso::layout::CSOHeader { uncompressed_size, ..ciso::layout::CSOHeader::new() }.serialize()
}

/// A header that was written reads back.
pub proof fn cso_header_round_trips(uncompressed_size: u64)
    ensures
        cso_header_bytes(uncompressed_size).len() == 24,
        cso_header_of(cso_header_bytes(uncompressed_size)) == Ok::<CsoFields, CsoHeaderError>(
            CsoFields { uncompressed_size, block_size: 2048, alignment: 2 },
        ),
{
    let b = cso_header_bytes(uncompressed_size);
    assert(b.len() == 24);
    assert(field(b, 0, 4) =~= le_bytes(0x4F53_4943, 4));
    assert(field(b, 4, 4) =~= le_bytes(24, 4));
    assert(field(b, 8, 8) =~= le_bytes(uncompressed_size as nat, 8));
    assert(field(b, 16, 4) =~= le_bytes(2048, 4));
    crate::bytes::lemma_pow256();
    crate::bytes::lemma_le_round_trip(0x4F53_4943, 4);
    crate::bytes::lemma_le_round_trip(24, 4);
    crate::bytes::lemma_le_round_trip(uncompressed_size as nat, 8);
    crate::bytes::lemma_le_round_trip(2048, 4);
}

/// The blocks of a sector's LZ4 frame, without the frame's head and end mark.
pub open spec fn frame_body(data: Seq<u8>) -> Seq<u8> {
    lz4_frame(data).subrange(7, lz4_frame(data).len() - 4)
}

/// Whether a sector is kept compressed: if that saves more than twelve bytes.
pub open spec fn is_kept_compressed(data: Seq<u8>) -> bool {
    frame_body(data).len() + 12 < data.len()
}

/// A sector as it is stored.
pub open spec fn stored(data: Seq<u8>) -> Seq<u8> {
    if is_kept_compressed(data) {
        frame_body(data)
    } else {
        data
    }
}

/// The frame around stored blocks.
pub open spec fn framed(body: Seq<u8>) -> Seq<u8> {
    lz4_frame_head() + body + seq![0u8, 0, 0, 0]
}

/// Stored blocks that decode to `data`, with any number of zeros after them.
pub open spec fn body_decodes(data: Seq<u8>) -> bool {
    forall|n: nat| lz4_frame_decoded(framed(frame_body(data) + #[trigger] zeros(n))) == Some(data)
}

/// A sector as it is stored, and whether it is compressed. Compressed blocks decode again, also
/// with alignment zeros after them.
pub fn compress_sector(data: &[u8]) -> (r: (Vec<u8>, bool))
    ensures
        r.0@ == stored(data@),
        r.1 == is_kept_compressed(data@),
        data@.len() > 0 ==> r.0@.len() > 0,
        body_decodes(data@),
{
    let frame = lz4_frame_compress(data);
    let n: usize = frame.len();
    let body = copy_range(frame.as_slice(), 7, n - 4);
    proof {
        let f = frame@;
        assert(f =~= f.take(7) + body@ + f.skip(f.len() - 4));
        assert forall|n: nat|
            lz4_frame_decoded(framed(frame_body(data@) + #[trigger] zeros(n))) == Some(data@) by {
            assert(framed(body@ + zeros(n)) =~= f + zeros(n));
        }
    }
    if body.len() < data.len() && data.len() - body.len() > 12 {
        (body, true)
    } else {
        let mut copy: Vec<u8> = Vec::new();
        put_slice(&mut copy, data);
        assert(copy@ =~= data@);
        (copy, false)
    }
}

/// Decodes stored blocks, framed as the decoder wants them.
pub fn decode_lz4_sector(compressed: &[u8]) -> (r: Option<Vec<u8>>)
    ensures
        crate::bytes::opt_view(r) == lz4_frame_decoded(framed(compressed@)),
{
    let mut frame: Vec<u8> = Vec::new();
    frame.push(0x04);
    frame.push(0x22);
    frame.push(0x4D);
    frame.push(0x18);
    frame.push(0x60);
    frame.push(0x40);
    frame.push(0x82);
    put_slice(&mut frame, compressed);
    put_zeros(&mut frame, 4);
    assert(frame@ =~= framed(compressed@));
    lz4_frame_decompress(frame.as_slice())
}

/// Sector `i` starts a part: its position is lower than that of the sector before it.
pub open spec fn starts_part(table: Seq<IndexTableEntry>, i: int) -> bool {
    i == 0 || table[i].pos() < table[i - 1].pos()
}

/// The sectors before sector `k` that start a part. The index's last entry is no sector.
pub open spec fn part_starts(table: Seq<IndexTableEntry>, k: int) -> Seq<u64>
    decreases k,
{
    if k <= 1 {
        seq![0u64]
    } else if starts_part(table, k - 1) {
        part_starts(table, k - 1).push((k - 1) as u64)
    } else {
        part_starts(table, k - 1)
    }
}

/// The sector at which each part begins: 0, and wherever positions fall back.
pub fn part_boundaries(index_table: &[IndexTableEntry]) -> (r: Vec<u64>)
    ensures
        r@ == part_starts(index_table@, index_table@.len() - 1),
{
    let mut starts: Vec<u64> = Vec::new();
    starts.push(0);
    assert(starts@ =~= seq![0u64]);
    let n: usize = index_table.len();
    if n <= 1 {
        return starts;
    }
    let mut i: usize = 1;
    while i < n - 1
        invariant
            1 <= i,
            n == index_table@.len(),
            n >= 2,
            i <= n - 1,
            starts@ == part_starts(index_table@, i as int),
        decreases n - i,
    {
        if index_table[i].position() < index_table[i - 1].position() {
            starts.push(i as u64);
        }
        i = i + 1;
    }
    starts
}

/// Starts ascend, from 0.
pub open spec fn ascending(starts: Seq<u64>) -> bool {
    &&& starts.len() >= 1
    &&& starts[0] == 0
    &&& forall|i: int, j: int| 0 <= i < j < starts.len() ==> #[trigger] starts[i] < #[trigger] starts[j]
}

pub proof fn part_starts_ascend(table: Seq<IndexTableEntry>, k: int)
    requires
        k <= u64::MAX,
    ensures
        ascending(part_starts(table, k)),
        k >= 1 ==> part_starts(table, k).last() < k,
        part_starts(table, k).len() <= (if k <= 1 { 1 } else { k }),
    decreases k,
{
    if k > 1 {
        part_starts_ascend(table, k - 1);
    }
}

/// The part that `sector` lies in: the last that starts at or before it.
pub fn locate_part(starts: &[u64], sector: u64) -> (r: usize)
    requires
        ascending(starts@),
    ensures
        r < starts@.len(),
        starts@[r as int] <= sector,
        r + 1 < starts@.len() ==> sector < starts@[r + 1],
{
    let mut lo: usize = 0;
    let mut hi: usize = starts.len();
    while hi - lo > 1
        invariant
            lo < hi <= starts@.len(),
            starts@[lo as int] <= sector,
            hi < starts@.len() ==> sector < starts@[hi as int],
        decreases hi - lo,
    {
        let mid: usize = lo + (hi - lo) / 2;
        if starts[mid] <= sector {
            lo = mid;
        } else {
            hi = mid;
        }
    }
    lo
}

/// Parts are padded to a kibibyte.
pub proof fn parts_are_padded_to_a_kibibyte()
    ensures
        FILE_PADDING_MODULUS == 1024,
        FILE_SPLIT_POINT == 0xFFBF_6000,
        HEADER_SIZE == 24,
{
}

} // verus!
