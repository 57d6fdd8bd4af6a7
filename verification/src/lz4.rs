//! LZ4 blocks.
use crate::bytes::opt_view;
use vstd::prelude::*;

verus! {

/// The LZ4 block that `data` compresses to.
pub uninterp spec fn lz4_compressed(data: Seq<u8>) -> Seq<u8>;

/// What an LZ4 block decodes to; none if it is not well-formed or gives more than `max` bytes.
pub uninterp spec fn lz4_decoded(block: Seq<u8>, max: nat) -> Option<Seq<u8>>;

/// `lz4_flex::block::compress`: the block is a function of the data alone, and decodes to it
/// where that much room is given.
#[verifier::external_body]
pub(crate) fn lz4_compress(data: &[u8]) -> (r: Vec<u8>)
    ensures
        r@ == lz4_compressed(data@),
        lz4_decoded(r@, data@.len()) == Some(data@),
{
    lz4_flex::block::compress(data)
}

/// `lz4_flex::block::decompress_into` a buffer of `max` bytes: what was written to it, or that
/// decoding failed, is a function of the block and of the room.
#[verifier::external_body]
pub(crate) fn lz4_decompress(block: &[u8], max: usize) -> (r: Option<Vec<u8>>)
    ensures
        opt_view(r) == lz4_decoded(block@, max as nat),
        r matches Some(v) ==> v@.len() <= max,
{
    let mut out = vec![0u8; max];
    let n = lz4_flex::block::decompress_into(block, &mut out).ok()?;
    out.truncate(n);
    Some(out)
}

/// The LZ4 frame that `data` compresses to: independent blocks of at most 64 KiB, no checksums,
/// no content size.
pub uninterp spec fn lz4_frame(data: Seq<u8>) -> Seq<u8>;

/// What an LZ4 frame decodes to; none if it is not well-formed.
pub uninterp spec fn lz4_frame_decoded(frame: Seq<u8>) -> Option<Seq<u8>>;

/// The magic and descriptor that begin such a frame.
pub open spec fn lz4_frame_head() -> Seq<u8> {
    seq![0x04u8, 0x22, 0x4D, 0x18, 0x60, 0x40, 0x82]
}

/// `lz4_flex::frame::FrameEncoder` with this configuration, fed `data` and finished: the frame
/// is a function of the data alone, begins with seven fixed bytes and ends with a mark of four
/// zeros; between them each block has its size in four bytes before it. Decoding gives the data
/// back and stops at the mark, whatever follows it.
#[verifier::external_body]
pub(crate) fn lz4_frame_compress(data: &[u8]) -> (r: Vec<u8>)
    ensures
        r@ == lz4_frame(data@),
        r@.len() >= 11,
        data@.len() > 0 ==> r@.len() >= 15,
        r@.take(7) == lz4_frame_head(),
        r@.skip(r@.len() - 4) == seq![0u8, 0, 0, 0],
        forall|tail: Seq<u8>| #[trigger] lz4_frame_decoded(r@ + tail) == Some(data@),
{
    let info = lz4_flex::frame::FrameInfo::new()
        .block_mode(lz4_flex::frame::BlockMode::Independent)
        .block_size(lz4_flex::frame::BlockSize::Max64KB)
        .content_checksum(false)
        .block_checksums(false)
        .legacy_frame(true)
        .content_size(None);
    let mut encoder = lz4_flex::frame::FrameEncoder::with_frame_info(info, Vec::new());
    std::io::Write::write_all(&mut encoder, data).expect("writing to memory cannot fail");
    encoder.finish().expect("finishing in memory cannot fail")
}

/// `lz4_flex::frame::FrameDecoder`, read to the end of its frame: what comes out, or that it
/// failed, is a function of the bytes alone.
#[verifier::external_body]
pub(crate) fn lz4_frame_decompress(frame: &[u8]) -> (r: Option<Vec<u8>>)
    ensures
        opt_view(r) == lz4_frame_decoded(frame@),
{
    let mut out = Vec::new();
    let mut decoder = lz4_flex::frame::FrameDecoder::new(frame);
    std::io::Read::read_to_end(&mut decoder, &mut out).ok()?;
    Some(out)
}

} // verus!
