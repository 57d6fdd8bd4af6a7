//! Constants, footer and name encoding of `.zar` archives.
use crate::bytes::{
    be_bytes, be_val, field, get_be, lemma_be_round_trip, put_be, put_slice, take_array,
};
use crate::utils::text::chars_of;
use vstd::prelude::*;
use vstd::string::*;

verus! {

broadcast use crate::bytes::group_fields;

/// Data block size, fixed by the format.
pub const BLOCK_SIZE: usize = 0x1_0000;

/// Blocks per offset record.
pub const ENTRIES_PER_OFFSET_RECORD: usize = 16;

/// Bytes per offset record: a 64-bit base and a 16-bit size per block.
pub const OFFSET_RECORD_SIZE: usize = 40;

pub const FOOTER_MAGIC: u32 = 0x169f_52d6;

pub const FOOTER_VERSION: u32 = 0x61bf_3a01;

/// Six sections, a digest, the archive's size and two numbers.
pub const FOOTER_SIZE: usize = 144;

/// Where the digest stands in the footer.
pub const FOOTER_HASH_OFFSET: usize = 96;

pub fn zar_block_size() -> (r: u32)
    ensures
        r == BLOCK_SIZE,
{
    BLOCK_SIZE as u32
}

/// The archive's file name.
pub fn output_file_name(base_name: &str) -> (r: String)
    ensures
        r@ == base_name@ + ".zar"@,
{
    let mut r = base_name.to_owned();
    r.append(".zar");
    r
}

/// The code points of the bytes 0x80 to 0x9F in windows-1252, by the WHATWG index: bytes that
/// stand for no character map to the control character of their own number.
pub open spec fn win1252_high(b: u8) -> u32 {
    if b == 0x80 {
        0x20AC
    } else if b == 0x82 {
        0x201A
    } else if b == 0x83 {
        0x0192
    } else if b == 0x84 {
        0x201E
    } else if b == 0x85 {
        0x2026
    } else if b == 0x86 {
        0x2020
    } else if b == 0x87 {
        0x2021
    } else if b == 0x88 {
        0x02C6
    } else if b == 0x89 {
        0x2030
    } else if b == 0x8A {
        0x0160
    } else if b == 0x8B {
        0x2039
    } else if b == 0x8C {
        0x0152
    } else if b == 0x8E {
        0x017D
    } else if b == 0x91 {
        0x2018
    } else if b == 0x92 {
        0x2019
    } else if b == 0x93 {
        0x201C
    } else if b == 0x94 {
        0x201D
    } else if b == 0x95 {
        0x2022
    } else if b == 0x96 {
        0x2013
    } else if b == 0x97 {
        0x2014
    } else if b == 0x98 {
        0x02DC
    } else if b == 0x99 {
        0x2122
    } else if b == 0x9A {
        0x0161
    } else if b == 0x9B {
        0x203A
    } else if b == 0x9C {
        0x0153
    } else if b == 0x9E {
        0x017E
    } else if b == 0x9F {
        0x0178
    } else {
        b as u32
    }
}

/// The code point of byte `b` in windows-1252.
pub open spec fn win1252_code(b: u8) -> u32 {
    if 0x80 <= b < 0xA0 {
        win1252_high(b)
    } else {
        b as u32
    }
}

/// `bytes` read as windows-1252, one character a byte.
pub open spec fn win1252_text(bytes: Seq<u8>) -> Seq<char> {
    bytes.map_values(|b: u8| win1252_code(b) as char)
}

/// The byte of `c` in windows-1252; `?` for a character that has none.
pub open spec fn win1252_byte(c: char) -> u8 {
    if exists|b: u8| win1252_code(b) == c as u32 {
        choose|b: u8| win1252_code(b) == c as u32
    } else {
        0x3F
    }
}

/// `encoding_rs::WINDOWS_1252.decode_without_bom_handling`: each byte gives the one character
/// of its code point.
#[verifier::external_body]
pub(crate) fn win1252_decode(bytes: &[u8]) -> (r: String)
    ensures
        r@ == win1252_text(bytes@),
{
    encoding_rs::WINDOWS_1252.decode_without_bom_handling(bytes).0.into_owned()
}

/// `encoding_rs::Encoder::encode_from_utf8_without_replacement` on one character: the byte of
/// that code point, or none if no byte has it.
#[verifier::external_body]
pub(crate) fn win1252_encode(c: char) -> (r: Option<u8>)
    ensures
        match r {
            Some(b) => win1252_code(b) == c as u32,
            None => forall|b: u8| win1252_code(b) != c as u32,
        },
{
    let mut src = [0u8; 4];
    let mut dst = [0u8; 4];
    let mut encoder = encoding_rs::WINDOWS_1252.new_encoder();
    match encoder.encode_from_utf8_without_replacement(c.encode_utf8(&mut src), &mut dst, true).0 {
        encoding_rs::EncoderResult::InputEmpty => Some(dst[0]),
        _ => None,
    }
}

/// No two bytes have the same code point.
pub proof fn win1252_is_injective(a: u8, b: u8)
    requires
        win1252_code(a) == win1252_code(b),
    ensures
        a == b,
{
}

/// Every byte, decoded and encoded again, is itself.
pub proof fn win1252_bytes_round_trip(b: u8)
    ensures
        win1252_byte(win1252_code(b) as char) == b,
{
    let c = win1252_code(b) as char;
    assert(c as u32 == win1252_code(b));
    let d = choose|d: u8| win1252_code(d) == c as u32;
    assert(win1252_code(d) == c as u32);
    win1252_is_injective(d, b);
}

/// Decodes the bytes of a name.
pub fn decode_windows_1252(bytes: &[u8]) -> (r: String)
    ensures
        r@ == win1252_text(bytes@),
{
    win1252_decode(bytes)
}

/// The byte of one character, `?` for one that has none.
pub fn encode_windows_1252_char(c: char) -> (r: u8)
    ensures
        r == win1252_byte(c),
{
    match win1252_encode(c) {
        Some(b) => {
            proof {
                let d = win1252_byte(c);
                assert(win1252_code(d) == c as u32);
                win1252_is_injective(d, b);
            }
            b
        },
        None => 0x3F,
    }
}

/// The bytes of a name, one a character.
pub fn encode_windows_1252(name: &str) -> (r: Vec<u8>)
    ensures
        r@ == name@.map_values(|c: char| win1252_byte(c)),
{
    let chars = chars_of(name);
    let mut r: Vec<u8> = Vec::new();
    let mut i: usize = 0;
    while i < chars.len()
        invariant
            i <= chars@.len(),
            chars@ == name@,
            r@.len() == i,
            forall|j: int| 0 <= j < i ==> r@[j] == win1252_byte(name@[j]),
        decreases chars@.len() - i,
    {
        r.push(encode_windows_1252_char(chars[i]));
        i = i + 1;
    }
    assert(r@ =~= name@.map_values(|c: char| win1252_byte(c)));
    r
}

/// Where one section of the archive stands.
#[derive(Clone, Copy, Debug, PartialEq, Eq, Structural)]
pub struct SectionInfo {
    pub offset: u64,
    pub size: u64,
}

impl SectionInfo {
    /// Whether the section lies within a file of this size.
    pub fn in_range(&self, file_size: u64) -> (r: bool)
        ensures
            r == (self.offset + self.size <= file_size),
    {
        self.offset <= file_size && self.size <= file_size - self.offset
    }
}

/// The last 144 bytes of an archive.
#[derive(Clone, Debug, PartialEq, Eq)]
pub struct ZarFooter {
    pub compressed_data: SectionInfo,
    pub offset_records: SectionInfo,
    pub names: SectionInfo,
    pub file_tree: SectionInfo,
    pub meta_directory: SectionInfo,
    pub meta_data: SectionInfo,
    pub hash: [u8; 32],
    pub total_size: u64,
    pub version: u32,
    pub magic: u32,
}

pub open spec fn section_bytes(s: SectionInfo) -> Seq<u8> {
    be_bytes(s.offset as nat, 8) + be_bytes(s.size as nat, 8)
}

/// Where the six sections of an archive stand.
pub struct Sections {
    pub compressed_data: SectionInfo,
    pub offset_records: SectionInfo,
    pub names: SectionInfo,
    pub file_tree: SectionInfo,
    pub meta_directory: SectionInfo,
    pub meta_data: SectionInfo,
}

/// A footer: six sections, a digest, the archive's size, version and magic, every number
/// big-endian.
pub open spec fn footer_layout(
    s: Sections,
    hash: Seq<u8>,
    total_size: u64,
    version: u32,
    magic: u32,
) -> Seq<u8> {
    section_bytes(s.compressed_data) + section_bytes(s.offset_records) + section_bytes(s.names)
        + section_bytes(s.file_tree) + section_bytes(s.meta_directory) + section_bytes(s.meta_data)
        + hash + be_bytes(total_size as nat, 8) + be_bytes(version as nat, 4) + be_bytes(
        magic as nat,
        4,
    )
}

impl ZarFooter {
    pub open spec fn sections(self) -> Sections {
        Sections {
            compressed_data: self.compressed_data,
            offset_records: self.offset_records,
            names: self.names,
            file_tree: self.file_tree,
            meta_directory: self.meta_directory,
            meta_data: self.meta_data,
        }
    }
}

/// The bytes of a footer.
pub open spec fn footer_bytes(f: ZarFooter) -> Seq<u8> {
    footer_layout(f.sections(), f.hash@, f.total_size, f.version, f.magic)
}

/// The section that the 16 bytes of `b` from `at` name.
pub open spec fn section_at(b: Seq<u8>, at: int) -> SectionInfo {
    SectionInfo {
        offset: be_val(field(b, at, 8)) as u64,
        size: be_val(field(b, at + 8, 8)) as u64,
    }
}

/// `f` holds what the bytes `b` say, field by field.
pub open spec fn footer_reads(b: Seq<u8>, f: ZarFooter) -> bool {
    &&& f.compressed_data == section_at(b, 0)
    &&& f.offset_records == section_at(b, 16)
    &&& f.names == section_at(b, 32)
    &&& f.file_tree == section_at(b, 48)
    &&& f.meta_directory == section_at(b, 64)
    &&& f.meta_data == section_at(b, 80)
    &&& f.hash@ == field(b, 96, 32)
    &&& f.total_size == be_val(field(b, 128, 8))
    &&& f.version == be_val(field(b, 136, 4))
    &&& f.magic == be_val(field(b, 140, 4))
}

fn put_section(out: &mut Vec<u8>, s: &SectionInfo)
    ensures
        final(out)@ == old(out)@ + section_bytes(*s),
{
    put_be(out, s.offset, 8);
    put_be(out, s.size, 8);
    assert(out@ =~= old(out)@ + section_bytes(*s));
}

fn get_section(bytes: &[u8], at: usize) -> (r: SectionInfo)
    requires
        at + 16 <= bytes.len(),
    ensures
        r == section_at(bytes@, at as int),
{
    SectionInfo { offset: get_be(bytes, at, 8), size: get_be(bytes, at + 8, 8) }
}

impl ZarFooter {
    /// Appends the footer's bytes.
    pub fn write(&self, out: &mut Vec<u8>)
        ensures
            final(out)@ == old(out)@ + footer_bytes(*self),
            footer_bytes(*self).len() == FOOTER_SIZE,
    {
        put_section(out, &self.compressed_data);
        put_section(out, &self.offset_records);
        put_section(out, &self.names);
        put_section(out, &self.file_tree);
        put_section(out, &self.meta_directory);
        put_section(out, &self.meta_data);
        put_slice(out, self.hash.as_slice());
        put_be(out, self.total_size, 8);
        put_be(out, self.version as u64, 4);
        put_be(out, self.magic as u64, 4);
        assert(out@ =~= old(out)@ + footer_bytes(*self));
    }

    /// Reads a footer from the first 144 bytes; none if there are fewer.
    pub fn read(bytes: &[u8]) -> (r: Option<ZarFooter>)
        ensures
            r is Some <==> bytes@.len() >= FOOTER_SIZE,
            r matches Some(f) ==> footer_reads(bytes@, f),
    {
        if bytes.len() < FOOTER_SIZE {
            return None;
        }
        proof {
            crate::bytes::lemma_pow256();
        }
        Some(
            ZarFooter {
                compressed_data: get_section(bytes, 0),
                offset_records: get_section(bytes, 16),
                names: get_section(bytes, 32),
                file_tree: get_section(bytes, 48),
                meta_directory: get_section(bytes, 64),
                meta_data: get_section(bytes, 80),
                hash: take_array(bytes, 96),
                total_size: get_be(bytes, 128, 8),
                version: get_be(bytes, 136, 4) as u32,
                magic: get_be(bytes, 140, 4) as u32,
            },
        )
    }
}

proof fn lemma_section_at(b: Seq<u8>, at: int, s: SectionInfo)
    requires
        0 <= at,
        at + 16 <= b.len(),
        field(b, at, 16) == section_bytes(s),
    ensures
        section_at(b, at) == s,
{
    let w = section_bytes(s);
    assert(field(b, at, 8) =~= be_bytes(s.offset as nat, 8)) by {
        assert(forall|i: int| 0 <= i < 16 ==> field(b, at, 16)[i] == b[at + i]);
    }
    assert(field(b, at + 8, 8) =~= be_bytes(s.size as nat, 8)) by {
        assert forall|i: int| 0 <= i < 8 implies field(b, at + 8, 8)[i] == be_bytes(
            s.size as nat,
            8,
        )[i] by {
            assert(field(b, at, 16)[8 + i] == w[8 + i]);
            assert(field(b, at, 16)[8 + i] == b[at + 8 + i]);
            assert(be_bytes(s.offset as nat, 8).len() == 8);
            assert(w[8 + i] == be_bytes(s.size as nat, 8)[i]);
        }
    }
    crate::bytes::lemma_pow256();
    lemma_be_round_trip(s.offset as nat, 8);
    lemma_be_round_trip(s.size as nat, 8);
}

/// A footer that was written reads back whole, and takes exactly 144 bytes.
pub proof fn footer_round_trips(f: ZarFooter, g: ZarFooter)
    requires
        footer_reads(footer_bytes(f), g),
    ensures
        footer_bytes(f).len() == FOOTER_SIZE,
        g == f,
{
    let b = footer_bytes(f);
    assert(b.len() == 144);
    assert(field(b, 0, 16) =~= section_bytes(f.compressed_data));
    assert(field(b, 16, 16) =~= section_bytes(f.offset_records));
    assert(field(b, 32, 16) =~= section_bytes(f.names));
    assert(field(b, 48, 16) =~= section_bytes(f.file_tree));
    assert(field(b, 64, 16) =~= section_bytes(f.meta_directory));
    assert(field(b, 80, 16) =~= section_bytes(f.meta_data));
    lemma_section_at(b, 0, f.compressed_data);
    lemma_section_at(b, 16, f.offset_records);
    lemma_section_at(b, 32, f.names);
    lemma_section_at(b, 48, f.file_tree);
    lemma_section_at(b, 64, f.meta_directory);
    lemma_section_at(b, 80, f.meta_data);
    assert(field(b, 96, 32) =~= f.hash@);
    assert(field(b, 128, 8) =~= be_bytes(f.total_size as nat, 8));
    assert(field(b, 136, 4) =~= be_bytes(f.version as nat, 4));
    assert(field(b, 140, 4) =~= be_bytes(f.magic as nat, 4));
    crate::bytes::lemma_pow256();
    lemma_be_round_trip(f.total_size as nat, 8);
    lemma_be_round_trip(f.version as nat, 4);
    lemma_be_round_trip(f.magic as nat, 4);
    assert(g.hash =~= f.hash);
}

/// The characters of windows-1252: a byte below 0x80 or from 0xA0 on is the character of its
/// number, and the others are those of the code page, or the control character of their number
/// where it has none.
pub proof fn win1252_is_its_code_page(b: u8)
    ensures
        !(0x80 <= b < 0xA0) ==> win1252_code(b) == b,
        0x80 <= b < 0xA0 ==> win1252_code(b) == seq![
            0x20ACu32,
            0x81,
            0x201A,
            0x0192,
            0x201E,
            0x2026,
            0x2020,
            0x2021,
            0x02C6,
            0x2030,
            0x0160,
            0x2039,
            0x0152,
            0x8D,
            0x017D,
            0x8F,
            0x90,
            0x2018,
            0x2019,
            0x201C,
            0x201D,
            0x2022,
            0x2013,
            0x2014,
            0x02DC,
            0x2122,
            0x0161,
            0x203A,
            0x0153,
            0x9D,
            0x017E,
            0x0178,
        ][b - 0x80],
{
}

/// A character that has a byte is written as that byte, and any other as a question mark.
pub proof fn characters_without_a_byte_are_marked(c: char, b: u8)
    ensures
        win1252_code(b) == c as u32 ==> win1252_byte(c) == b,
        (forall|d: u8| win1252_code(d) != c as u32) ==> win1252_byte(c) == 63,
{
    if win1252_code(b) == c as u32 {
        let d = choose|d: u8| win1252_code(d) == c as u32;
        assert(win1252_code(d) == c as u32);
        win1252_is_injective(b, d);
    }
}

} // verus!
