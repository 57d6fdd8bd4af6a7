//! Header, names and slots of `.cci` parts.
use crate::bytes::{
    field, get_be, get_le, le_bytes, le_val, lemma_le_round_trip, put_be, put_le, put_slice,
    put_zeros, round_up, zeros,
};
use crate::lz4::{lz4_compress, lz4_compressed, lz4_decoded};
use crate::utils::text::{decimal, decimal_tells_apart, push_decimal};
use vstd::prelude::*;
use vstd::string::*;

verus! {

broadcast use crate::bytes::group_fields;

/// `CCIM`, most significant byte first.
pub const MAGIC: u32 = 0x4343_494D;

pub const SECTOR_SIZE: u64 = 2048;

pub const HEADER_SIZE: u64 = 32;

pub const BLOCK_SIZE: u32 = 2048;

pub const VERSION: u8 = 1;

pub const INDEX_ALIGNMENT: u8 = 2;

/// A part that has grown past this ends before the next sector.
pub const FILE_SPLIT_POINT: u64 = 0xFF00_0000;

/// Sectors sized per call.
pub const SIZING_BATCH_SECTORS: u64 = 256;

/// A compressed sector is kept if it is smaller than this.
pub const KEEP_BELOW: usize = 2040;

pub fn cci_sector_size() -> (r: u32)
    ensures
        r == SECTOR_SIZE,
{
    SECTOR_SIZE as u32
}

/// The size past which a part ends.
pub fn cci_file_split_point() -> (r: u32)
    ensures
        r == FILE_SPLIT_POINT,
{
    FILE_SPLIT_POINT as u32
}

/// Sectors sized per call.
pub fn cci_sizing_batch_sectors() -> (r: u32)
    ensures
        r == SIZING_BATCH_SECTORS,
{
    SIZING_BATCH_SECTORS as u32
}

/// `base.N.cci`, counted from one.
pub open spec fn split_name(base: Seq<char>, index: int) -> Seq<char> {
    base + "."@ + decimal((index + 1) as nat) + ".cci"@
}

/// The name of part `index` of `total`: numbered only if there is more than one.
pub open spec fn output_name(base: Seq<char>, index: int, total: int) -> Seq<char> {
    if total <= 1 {
        base + ".cci"@
    } else {
        split_name(base, index)
    }
}

/// No two parts have the same name.
pub proof fn output_names_differ(base: Seq<char>, a: int, b: int, total: int)
    requires
        0 <= a < b < total,
    ensures
        output_name(base, a, total) != output_name(base, b, total),
{
    let x = output_name(base, a, total);
    let y = output_name(base, b, total);
    if x == y {
        let i = decimal((a + 1) as nat);
        let j = decimal((b + 1) as nat);
        let from = (base + "."@).len() as int;
        assert(x.len() == from + i.len() + ".cci"@.len());
        assert(y.len() == from + j.len() + ".cci"@.len());
        assert(x.subrange(from, from + i.len()) =~= i);
        assert(y.subrange(from, from + j.len()) =~= j);
        decimal_tells_apart((a + 1) as nat, (b + 1) as nat);
    }
}

pub fn split_name_for(base_name: &str, index: u64) -> (r: String)
    requires
        index < u64::MAX,
    ensures
        r@ == split_name(base_name@, index as int),
{
    let mut r = base_name.to_owned();
    r.append(".");
    push_decimal(&mut r, index + 1);
    r.append(".cci");
    r
}

pub fn output_name_for(base_name: &str, index: u64, total_parts: usize) -> (r: String)
    requires
        index < u64::MAX,
    ensures
        r@ == output_name(base_name@, index as int, total_parts as int),
{
    if total_parts <= 1 {
        let mut r = base_name.to_owned();
        r.append(".cci");
        r
    } else {
        split_name_for(base_name, index)
    }
}

/// The header of a part, after its magic.
#[derive(Clone, Copy, Debug, PartialEq, Eq, Structural)]
pub struct CciHeader {
    pub header_size: u32,
    pub uncompressed_size: u64,
    pub index_offset: u64,
    pub block_size: u32,
    pub version: u8,
    pub index_alignment: u8,
}

/// The 32 bytes of a header: the magic, six little-endian fields and two zeros.
pub open spec fn header_bytes(h: CciHeader) -> Seq<u8> {
    crate::bytes::be_bytes(MAGIC as nat, 4) + le_bytes(h.header_size as nat, 4) + le_bytes(
        h.uncompressed_size as nat,
        8,
    ) + le_bytes(h.index_offset as nat, 8) + le_bytes(h.block_size as nat, 4) + le_bytes(
        h.version as nat,
        1,
    ) + le_bytes(h.index_alignment as nat, 1) + zeros(2)
}

/// The header that `b` starts with; none if the magic is not there or the header is cut short.
pub open spec fn header_of(b: Seq<u8>) -> Option<CciHeader> {
    if b.len() < 32 || crate::bytes::be_val(field(b, 0, 4)) != MAGIC {
        None
    } else {
        Some(
            CciHeader {
                header_size: le_val(field(b, 4, 4)) as u32,
                uncompressed_size: le_val(field(b, 8, 8)) as u64,
                index_offset: le_val(field(b, 16, 8)) as u64,
                block_size: le_val(field(b, 24, 4)) as u32,
                version: le_val(field(b, 28, 1)) as u8,
                index_alignment: le_val(field(b, 29, 1)) as u8,
            },
        )
    }
}

impl CciHeader {
    /// Appends the header's bytes.
    pub fn write(&self, out: &mut Vec<u8>)
        ensures
            final(out)@ == old(out)@ + header_bytes(*self),
    {
        put_be(out, MAGIC as u64, 4);
        put_le(out, self.header_size as u64, 4);
        put_le(out, self.uncompressed_size, 8);
        put_le(out, self.index_offset, 8);
        put_le(out, self.block_size as u64, 4);
        put_le(out, self.version as u64, 1);
        put_le(out, self.index_alignment as u64, 1);
        put_zeros(out, 2);
        assert(out@ =~= old(out)@ + header_bytes(*self));
    }

    /// Reads the header that `bytes` starts with.
    pub fn read(bytes: &[u8]) -> (r: Option<CciHeader>)
        ensures
            r == header_of(bytes@),
    {
        if bytes.len() < 32 {
            return None;
        }
        proof {
            crate::bytes::lemma_pow256();
        }
        if get_be(bytes, 0, 4) != MAGIC as u64 {
            return None;
        }
        Some(
            CciHeader {
                header_size: get_le(bytes, 4, 4) as u32,
                uncompressed_size: get_le(bytes, 8, 8),
                index_offset: get_le(bytes, 16, 8),
                block_size: get_le(bytes, 24, 4) as u32,
                version: get_le(bytes, 28, 1) as u8,
                index_alignment: get_le(bytes, 29, 1) as u8,
            },
        )
    }
}

/// A header that was written reads back, whatever follows it.
pub proof fn header_round_trips(h: CciHeader, rest: Seq<u8>)
    ensures
        header_bytes(h).len() == 32,
        header_of(header_bytes(h) + rest) == Some(h),
{
    let b = header_bytes(h) + rest;
    assert(header_bytes(h).len() == 32);
    assert(field(b, 0, 4) =~= crate::bytes::be_bytes(MAGIC as nat, 4));
    assert(field(b, 4, 4) =~= le_bytes(h.header_size as nat, 4));
    assert(field(b, 8, 8) =~= le_bytes(h.uncompressed_size as nat, 8));
    assert(field(b, 16, 8) =~= le_bytes(h.index_offset as nat, 8));
    assert(field(b, 24, 4) =~= le_bytes(h.block_size as nat, 4));
    assert(field(b, 28, 1) =~= le_bytes(h.version as nat, 1));
    assert(field(b, 29, 1) =~= le_bytes(h.index_alignment as nat, 1));
    crate::bytes::lemma_pow256();
    crate::bytes::lemma_be_round_trip(MAGIC as nat, 4);
    lemma_le_round_trip(h.header_size as nat, 4);
    lemma_le_round_trip(h.uncompressed_size as nat, 8);
    lemma_le_round_trip(h.index_offset as nat, 8);
    lemma_le_round_trip(h.block_size as nat, 4);
    lemma_le_round_trip(h.version as nat, 1);
    lemma_le_round_trip(h.index_alignment as nat, 1);
}

/// The header of a part of this size with its index at this offset.
pub open spec fn part_header(uncompressed_size: u64, index_offset: u64) -> CciHeader {
    CciHeader {
        header_size: 32,
        uncompressed_size,
        index_offset,
        block_size: BLOCK_SIZE,
        version: VERSION,
        index_alignment: INDEX_ALIGNMENT,
    }
}

pub fn serialize_cci_header(uncompressed_size: u64, index_offset: u64) -> (r: Vec<u8>)
    ensures
        r@ == header_bytes(part_header(uncompressed_size, index_offset)),
        r@.len() == 32,
{
    let header = CciHeader {
        header_size: 32,
        uncompressed_size,
        index_offset,
        block_size: BLOCK_SIZE,
        version: VERSION,
        index_alignment: INDEX_ALIGNMENT,
    };
    let mut r: Vec<u8> = Vec::new();
    header.write(&mut r);
    assert(r@ =~= header_bytes(header));
    r
}

/// Whether a sector is kept compressed: if the block is not empty and small enough.
pub open spec fn is_kept_compressed(sector: Seq<u8>) -> bool {
    0 < lz4_compressed(sector).len() < 2040
}

/// The block of a sector that is kept compressed, else the sector itself; and which it is.
pub fn compress_sector_cci(data: &[u8]) -> (r: (Vec<u8>, bool))
    ensures
        r.1 == is_kept_compressed(data@),
        r.0@ == (if r.1 {
            lz4_compressed(data@)
        } else {
            data@
        }),
        lz4_decoded(lz4_compressed(data@), data@.len()) == Some(data@),
{
    let compressed = lz4_compress(data);
    if compressed.len() > 0 && compressed.len() < KEEP_BELOW {
        (compressed, true)
    } else {
        let mut copy: Vec<u8> = Vec::new();
        put_slice(&mut copy, data);
        assert(copy@ =~= data@);
        (copy, false)
    }
}

/// The bytes a compressed sector takes, with its length byte, and how many of them are padding.
pub fn compressed_written_len(compressed_size: usize) -> (r: (u64, u8))
    requires
        compressed_size + 4 <= usize::MAX,
    ensures
        r.0 == round_up(compressed_size + 1, 4),
        r.0 == compressed_size + 1 + r.1,
        r.1 < 4,
{
    let raw: u64 = compressed_size as u64 + 1;
    let padded: u64 = (raw + 3) / 4 * 4;
    (padded, (padded - raw) as u8)
}

/// A sector as a part stores it. Compressed: the padding's length, the block, and zeros up to a
/// multiple of four.
pub open spec fn slot(sector: Seq<u8>) -> Seq<u8> {
    if is_kept_compressed(sector) {
        let c = lz4_compressed(sector);
        let pad = round_up((c.len() + 1) as int, 4) - (c.len() + 1);
        seq![pad as u8] + c + zeros(pad as nat)
    } else {
        sector
    }
}

/// A sector's slot, and whether it is compressed.
pub fn sector_slot(sector: &[u8]) -> (r: (Vec<u8>, bool))
    ensures
        r.0@ == slot(sector@),
        r.1 == is_kept_compressed(sector@),
        lz4_decoded(lz4_compressed(sector@), sector@.len()) == Some(sector@),
{
    let (data, is_compressed) = compress_sector_cci(sector);
    if is_compressed {
        let (_, padding) = compressed_written_len(data.len());
        let mut out: Vec<u8> = Vec::new();
        out.push(padding);
        put_slice(&mut out, data.as_slice());
        put_zeros(&mut out, padding as usize);
        assert(out@ =~= slot(sector@));
        (out, true)
    } else {
        (data, false)
    }
}

/// A slot is never longer than a sector, and always a multiple of four.
pub proof fn slot_lengths(sector: Seq<u8>)
    requires
        sector.len() == 2048,
    ensures
        0 < slot(sector).len() <= 2048,
        slot(sector).len() % 4 == 0,
{
}

} // verus!
