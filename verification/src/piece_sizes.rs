//! How long the pieces are that a session hands out.
use crate::cci::write::CciSession;
use crate::ciso::write::CisoSession;
use crate::god::write::{GodChunk, GodSession, GodWriteError};
use crate::source::{ByteSource, FileSource};
use crate::stfs::write::{StfsWriteError, StfsWriteSession, WritePhase};
use crate::zar::write::ZarSession;
use vstd::prelude::*;

verus! {

/// A piece of an archive is as long as was asked for, but for the last.
pub proof fn pieces_of_archives_are_as_long_as_asked<F: FileSource>(
    a: ZarSession<F>,
    b: ZarSession<F>,
    max_bytes: usize,
    chunk: Vec<u8>,
)
    requires
        crate::zar::round_trip::hands_out(a, b, max_bytes, chunk),
    ensures
        chunk@.len() <= max_bytes,
        chunk@.len() == max_bytes || b.is_finished(),
{
}

/// A piece of a `.cci` part is at least as long as was asked for, and longer by less than a sector,
/// or it ends with the header, the slots or the part.
pub proof fn pieces_of_cci_parts_are_as_long_as_asked<S: ByteSource>(
    a: CciSession<S>,
    b: CciSession<S>,
    max_bytes: usize,
    chunk: Vec<u8>,
)
    requires
        a.sizing_done,
        crate::cci::round_trip::hands_out(a, b, max_bytes, chunk),
    ensures
        chunk@.len() < max_bytes + 2048,
        chunk@.len() >= max_bytes || ({
            let at = a.written@.len() + chunk@.len();
            ||| at == 32
            ||| at == crate::cci::write::slot_start(
                a.img(),
                a.streamed().first_sector as int,
                a.streamed().end(),
            )
            ||| at == a.streamed_image().len()
        }),
{
}

/// A piece of a `.cso` part is at least as long as was asked for, or it ends with the header and
/// the index, with the sectors, or with the part.
pub proof fn pieces_of_ciso_parts_are_as_long_as_asked<S: ByteSource>(
    a: CisoSession<S>,
    b: CisoSession<S>,
    max_bytes: usize,
    chunk: Vec<u8>,
)
    requires
        a.sizing_done,
        crate::ciso::round_trip::hands_out(a, b, max_bytes, chunk),
    ensures
        chunk@.len() >= max_bytes || ({
            let at = a.written@.len() + chunk@.len();
            ||| a.stream_part == 0 && at == a.head().len()
            ||| at == a.upto(a.streamed_end()).len()
            ||| at == a.streamed_image().len()
        }),
{
}

/// A piece of a package behind its header is one block of 4096 bytes.
pub proof fn pieces_of_packages_are_blocks<F: FileSource>(
    a: StfsWriteSession<F>,
    b: StfsWriteSession<F>,
    max_bytes: usize,
    chunk: Vec<u8>,
)
    requires
        a.hashing_done,
        crate::stfs::write::chunk_step(
            a,
            b,
            max_bytes,
            Ok::<Option<Vec<u8>>, StfsWriteError>(Some(chunk)),
        ),
    ensures
        a.phase != WritePhase::Header ==> chunk@.len() == 4096,
        a.phase == WritePhase::Header ==> chunk@.len() == a.layout.first_hash_table_address,
{
}

/// A piece of a Games on Demand part is its master hash block, or one hash block with the data that
/// it hashes, at most 0xCC blocks.
pub proof fn pieces_of_god_parts_are_subparts<S: ByteSource>(
    a: GodSession<S>,
    b: GodSession<S>,
    max_bytes: usize,
    chunk: Vec<u8>,
)
    requires
        a.wf(),
        a.hashing_done,
        crate::god::write::chunk_step(
            a,
            b,
            max_bytes,
            Ok::<Option<GodChunk>, GodWriteError>(Some(GodChunk::Data(chunk))),
        ),
        !a.part_is_over(),
        a.part_header_emitted,
    ensures
        ({
            let from = a.current_part_index * 0xA1C_4000 + a.current_subpart_index * 0xC_C000;
            let to = if from + 0xC_C000 < a.size() {
                from + 0xC_C000
            } else {
                a.size()
            };
            &&& chunk@.len() == 4096 + (to - from)
            &&& chunk@.skip(4096) == a.img().subrange(from, to)
        }),
{
    let p = a.current_part_index as int;
    let s = a.current_subpart_index as int;
    let d = crate::god::write::subpart(a.img(), a.size(), p, s);
    let from = p * 0xA1C_4000 + s * 0xC_C000;
    assert(s < crate::god::write::subparts(a.size(), p));
    assert(from < a.size());
    assert(crate::god::write::sub_table(d).len() == 4096);
    assert(chunk@.skip(4096) =~= d);
}

} // verus!
