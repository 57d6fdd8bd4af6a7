//! One kind of session for every output format: preparation, then chunk after chunk.
use crate::cci::write::{CciSession, CciWriteError};
use crate::ciso::write::{CisoSession, CisoWriteError};
use crate::extracted::{ExtractedError, ExtractedSession, ExtractedStep};
use crate::god::write::{GodChunk, GodHeader, GodSession, GodWriteError};
use crate::source::{ByteSource, FileSource};
use crate::stfs::write::{StfsWriteError, StfsWriteSession, WritePhase};
use crate::xiso::read::XisoError;
use crate::xiso::write::XisoSession;
use crate::zar::write::{Phase, ZarSession, ZarWriteError};
use vstd::prelude::*;

verus! {

/// A conversion on its way.
pub enum SessionInner<S: ByteSource, F: FileSource> {
    God(GodSession<S>),
    Xiso(XisoSession<S>),
    Extracted(ExtractedSession<F>),
    Ciso(CisoSession<S>),
    Cci(CciSession<S>),
    Zar(ZarSession<F>),
    Stfs(StfsWriteSession<F>),
}

/// What a call for the next piece of the output came to.
pub enum SessionStep {
    /// All of the output has gone out.
    Done,
    Chunk(Vec<u8>),
    /// The executable, to be patched and handed back before the next call.
    Patch(Vec<u8>),
    /// What the header of a Games on Demand package says.
    Header(GodHeader),
}

/// Why a conversion cannot go on.
#[derive(Clone, Copy, Debug, PartialEq, Eq)]
pub enum SessionError {
    God(GodWriteError),
    Xiso(XisoError),
    Extracted(ExtractedError),
    Ciso(CisoWriteError),
    Cci(CciWriteError),
    Zar(ZarWriteError),
    Stfs(StfsWriteError),
}

impl SessionError {
    pub open spec fn text(self) -> Seq<char> {
        match self {
            SessionError::God(e) => e.text(),
            SessionError::Xiso(e) => e.text(),
            SessionError::Extracted(e) => e.text(),
            SessionError::Ciso(e) => e.text(),
            SessionError::Cci(e) => e.text(),
            SessionError::Zar(e) => e.text(),
            SessionError::Stfs(e) => e.text(),
        }
    }

    pub fn message(&self) -> (r: &'static str)
        ensures
            r@ == self.text(),
    {
        match self {
            SessionError::God(e) => e.message(),
            SessionError::Xiso(e) => e.message(),
            SessionError::Extracted(e) => e.message(),
            SessionError::Ciso(e) => e.message(),
            SessionError::Cci(e) => e.message(),
            SessionError::Zar(e) => e.message(),
            SessionError::Stfs(e) => e.message(),
        }
    }
}

impl<S: ByteSource, F: FileSource> SessionInner<S, F> {
    pub open spec fn wf(&self) -> bool {
        match self {
            SessionInner::God(s) => s.wf(),
            SessionInner::Xiso(s) => s.wf(),
            SessionInner::Extracted(s) => s.wf(),
            SessionInner::Ciso(s) => s.wf(),
            SessionInner::Cci(s) => s.wf(),
            SessionInner::Zar(s) => s.wf(),
            SessionInner::Stfs(s) => s.wf(),
        }
    }

    /// One step of what has to be done before the first chunk; true once nothing is left to do,
    /// which it is from the start for formats without preparation.
    pub fn hash_next_part(&mut self) -> (r: Result<bool, SessionError>)
        requires
            old(self).wf(),
        ensures
            final(self).wf(),
            match (*old(self), *final(self)) {
                (SessionInner::God(a), SessionInner::God(b)) => match r {
                    Ok(d) => crate::god::write::hash_step(a, b, Ok(d)),
                    Err(SessionError::God(e)) => crate::god::write::hash_step(a, b, Err(e)),
                    Err(_) => false,
                },
                (SessionInner::Ciso(a), SessionInner::Ciso(b)) => match r {
                    Ok(d) => crate::ciso::write::hash_step(a, b, Ok(d)),
                    Err(SessionError::Ciso(e)) => crate::ciso::write::hash_step(a, b, Err(e)),
                    Err(_) => false,
                },
                (SessionInner::Cci(a), SessionInner::Cci(b)) => match r {
                    Ok(d) => crate::cci::write::hash_step(a, b, Ok(d)),
                    Err(SessionError::Cci(e)) => crate::cci::write::hash_step(a, b, Err(e)),
                    Err(_) => false,
                },
                (SessionInner::Stfs(a), SessionInner::Stfs(b)) => match r {
                    Ok(d) => crate::stfs::write::hash_step(a, b, Ok(d)),
                    Err(SessionError::Stfs(e)) => crate::stfs::write::hash_step(a, b, Err(e)),
                    Err(_) => false,
                },
                (SessionInner::Xiso(a), SessionInner::Xiso(b)) => a == b && r == Ok::<
                    bool,
                    SessionError,
                >(true),
                (SessionInner::Extracted(a), SessionInner::Extracted(b)) => a == b && r == Ok::<
                    bool,
                    SessionError,
                >(true),
                (SessionInner::Zar(a), SessionInner::Zar(b)) => a == b && r == Ok::<
                    bool,
                    SessionError,
                >(true),
                _ => false,
            },
    {
        match self {
            SessionInner::God(s) => match s.hash_next_part() {
                Ok(d) => Ok(d),
                Err(e) => Err(SessionError::God(e)),
            },
            SessionInner::Ciso(s) => match s.hash_next_part() {
                Ok(d) => Ok(d),
                Err(e) => Err(SessionError::Ciso(e)),
            },
            SessionInner::Cci(s) => match s.hash_next_part() {
                Ok(d) => Ok(d),
                Err(e) => Err(SessionError::Cci(e)),
            },
            SessionInner::Stfs(s) => match s.hash_next_block() {
                Ok(d) => Ok(d),
                Err(e) => Err(SessionError::Stfs(e)),
            },
            SessionInner::Xiso(_) | SessionInner::Extracted(_) | SessionInner::Zar(_) => Ok(true),
        }
    }

    /// The next piece of the output. `max_bytes` is a hint: some formats emit units of a fixed
    /// size.
    pub fn next_chunk(&mut self, max_bytes: usize) -> (r: Result<SessionStep, SessionError>)
        requires
            old(self).wf(),
        ensures
            final(self).wf(),
            match (*old(self), *final(self)) {
                (SessionInner::God(a), SessionInner::God(b)) => match r {
                    Ok(SessionStep::Done) => crate::god::write::chunk_step(
                        a,
                        b,
                        max_bytes,
                        Ok(None),
                    ),
                    Ok(SessionStep::Chunk(v)) => crate::god::write::chunk_step(
                        a,
                        b,
                        max_bytes,
                        Ok(Some(GodChunk::Data(v))),
                    ),
                    Ok(SessionStep::Header(h)) => crate::god::write::chunk_step(
                        a,
                        b,
                        max_bytes,
                        Ok(Some(GodChunk::Header(h))),
                    ),
                    Ok(SessionStep::Patch(_)) => false,
                    Err(SessionError::God(e)) => crate::god::write::chunk_step(
                        a,
                        b,
                        max_bytes,
                        Err(e),
                    ),
                    Err(_) => false,
                },
                (SessionInner::Xiso(a), SessionInner::Xiso(b)) => match r {
                    Ok(SessionStep::Done) => crate::xiso::write::chunk_step(a, b, max_bytes, Ok(None)),
                    Ok(SessionStep::Chunk(v)) => crate::xiso::write::chunk_step(
                        a,
                        b,
                        max_bytes,
                        Ok(Some(v)),
                    ),
                    Ok(_) => false,
                    Err(SessionError::Xiso(e)) => crate::xiso::write::chunk_step(
                        a,
                        b,
                        max_bytes,
                        Err(e),
                    ),
                    Err(_) => false,
                },
                (SessionInner::Ciso(a), SessionInner::Ciso(b)) => match r {
                    Ok(SessionStep::Done) => crate::ciso::write::chunk_step(a, b, max_bytes, Ok(None)),
                    Ok(SessionStep::Chunk(v)) => crate::ciso::write::chunk_step(
                        a,
                        b,
                        max_bytes,
                        Ok(Some(v)),
                    ),
                    Ok(_) => false,
                    Err(SessionError::Ciso(e)) => crate::ciso::write::chunk_step(
                        a,
                        b,
                        max_bytes,
                        Err(e),
                    ),
                    Err(_) => false,
                },
                (SessionInner::Cci(a), SessionInner::Cci(b)) => match r {
                    Ok(SessionStep::Done) => crate::cci::write::chunk_step(a, b, max_bytes, Ok(None)),
                    Ok(SessionStep::Chunk(v)) => crate::cci::write::chunk_step(
                        a,
                        b,
                        max_bytes,
                        Ok(Some(v)),
                    ),
                    Ok(_) => false,
                    Err(SessionError::Cci(e)) => crate::cci::write::chunk_step(
                        a,
                        b,
                        max_bytes,
                        Err(e),
                    ),
                    Err(_) => false,
                },
                (SessionInner::Zar(a), SessionInner::Zar(b)) => match r {
                    Ok(SessionStep::Done) => crate::zar::write::chunk_step(a, b, max_bytes, Ok(None)),
                    Ok(SessionStep::Chunk(v)) => crate::zar::write::chunk_step(
                        a,
                        b,
                        max_bytes,
                        Ok(Some(v)),
                    ),
                    Ok(_) => false,
                    Err(SessionError::Zar(e)) => crate::zar::write::chunk_step(
                        a,
                        b,
                        max_bytes,
                        Err(e),
                    ),
                    Err(_) => false,
                },
                (SessionInner::Stfs(a), SessionInner::Stfs(b)) => match r {
                    Ok(SessionStep::Done) => crate::stfs::write::chunk_step(a, b, max_bytes, Ok(None)),
                    Ok(SessionStep::Chunk(v)) => crate::stfs::write::chunk_step(
                        a,
                        b,
                        max_bytes,
                        Ok(Some(v)),
                    ),
                    Ok(_) => false,
                    Err(SessionError::Stfs(e)) => crate::stfs::write::chunk_step(
                        a,
                        b,
                        max_bytes,
                        Err(e),
                    ),
                    Err(_) => false,
                },
                (SessionInner::Extracted(a), SessionInner::Extracted(b)) => match r {
                    Ok(SessionStep::Done) => crate::extracted::chunk_step(
                        a,
                        b,
                        max_bytes,
                        Ok(ExtractedStep::Done),
                    ),
                    Ok(SessionStep::Chunk(v)) => crate::extracted::chunk_step(
                        a,
                        b,
                        max_bytes,
                        Ok(ExtractedStep::Chunk(v)),
                    ),
                    Ok(SessionStep::Patch(v)) => crate::extracted::chunk_step(
                        a,
                        b,
                        max_bytes,
                        Ok(ExtractedStep::Patch(v)),
                    ),
                    Ok(SessionStep::Header(_)) => false,
                    Err(SessionError::Extracted(e)) => crate::extracted::chunk_step(
                        a,
                        b,
                        max_bytes,
                        Err(e),
                    ),
                    Err(_) => false,
                },
                _ => false,
            },
    {
        match self {
            SessionInner::God(s) => match s.next_chunk(max_bytes) {
                Ok(None) => Ok(SessionStep::Done),
                Ok(Some(GodChunk::Data(v))) => Ok(SessionStep::Chunk(v)),
                Ok(Some(GodChunk::Header(h))) => Ok(SessionStep::Header(h)),
                Err(e) => Err(SessionError::God(e)),
            },
            SessionInner::Extracted(s) => match s.next_chunk(max_bytes) {
                Ok(ExtractedStep::Done) => Ok(SessionStep::Done),
                Ok(ExtractedStep::Chunk(v)) => Ok(SessionStep::Chunk(v)),
                Ok(ExtractedStep::Patch(v)) => Ok(SessionStep::Patch(v)),
                Err(e) => Err(SessionError::Extracted(e)),
            },
            SessionInner::Xiso(s) => match s.next_chunk(max_bytes) {
                Ok(None) => Ok(SessionStep::Done),
                Ok(Some(v)) => Ok(SessionStep::Chunk(v)),
                Err(e) => Err(SessionError::Xiso(e)),
            },
            SessionInner::Ciso(s) => match s.next_chunk(max_bytes) {
                Ok(None) => Ok(SessionStep::Done),
                Ok(Some(v)) => Ok(SessionStep::Chunk(v)),
                Err(e) => Err(SessionError::Ciso(e)),
            },
            SessionInner::Cci(s) => match s.next_chunk(max_bytes) {
                Ok(None) => Ok(SessionStep::Done),
                Ok(Some(v)) => Ok(SessionStep::Chunk(v)),
                Err(e) => Err(SessionError::Cci(e)),
            },
            SessionInner::Zar(s) => match s.next_chunk(max_bytes) {
                Ok(None) => Ok(SessionStep::Done),
                Ok(Some(v)) => Ok(SessionStep::Chunk(v)),
                Err(e) => Err(SessionError::Zar(e)),
            },
            SessionInner::Stfs(s) => match s.next_chunk(max_bytes) {
                Ok(None) => Ok(SessionStep::Done),
                Ok(Some(v)) => Ok(SessionStep::Chunk(v)),
                Err(e) => Err(SessionError::Stfs(e)),
            },
        }
    }

    pub fn is_done(&self) -> (r: bool)
        ensures
            r == match self {
                SessionInner::God(s) => s.header_emitted,
                SessionInner::Xiso(s) => s.position() >= s.total(),
                SessionInner::Extracted(s) => s.index() >= s.count(),
                SessionInner::Ciso(s) => s.sizing_done && s.stream_stage
                    == crate::ciso::write::StreamStage::Done,
                SessionInner::Cci(s) => s.sizing_done && s.stream_part >= s.parts@.len(),
                SessionInner::Zar(s) => s.is_finished(),
                SessionInner::Stfs(s) => s.phase == WritePhase::Done,
            },
    {
        match self {
            SessionInner::God(s) => s.is_done(),
            SessionInner::Xiso(s) => s.is_done(),
            SessionInner::Extracted(s) => s.is_done(),
            SessionInner::Ciso(s) => s.is_done(),
            SessionInner::Cci(s) => s.is_done(),
            SessionInner::Zar(s) => s.is_done(),
            SessionInner::Stfs(s) => s.is_done(),
        }
    }

    /// How much there is to do: parts, sectors, files, blocks or, for an archive, bytes of input.
    pub fn total_units(&self) -> (r: u64)
        ensures
            r == match self {
                SessionInner::God(s) => s.part_count as int,
                SessionInner::Xiso(s) => s.total(),
                SessionInner::Extracted(s) => s.count(),
                SessionInner::Ciso(s) => s.total_data_sectors as int,
                SessionInner::Cci(s) => s.total_data_sectors as int,
                SessionInner::Zar(s) => s.total_input_bytes as int,
                SessionInner::Stfs(s) => s.layout.total_blocks as int,
            },
    {
        match self {
            SessionInner::God(s) => s.total_units(),
            SessionInner::Xiso(s) => s.total_units(),
            SessionInner::Extracted(s) => s.total_units(),
            SessionInner::Ciso(s) => s.total_units(),
            SessionInner::Cci(s) => s.total_units(),
            SessionInner::Zar(s) => s.total_units(),
            SessionInner::Stfs(s) => s.total_units(),
        }
    }

    /// How much has been done, where the bytes handed out do not tell: archives alone.
    pub fn units_done(&self) -> (r: Option<u64>)
        requires
            self.wf(),
        ensures
            match self {
                SessionInner::Zar(s) => r matches Some(n) && n == (if s.phase == Phase::Streaming {
                    s.consumed()
                } else {
                    s.total_input_bytes as int
                }),
                _ => r is None,
            },
    {
        match self {
            SessionInner::Zar(s) => Some(s.units_done()),
            _ => None,
        }
    }

    /// The output file that the last chunk belongs to; none for the formats whose output is always
    /// one file.
    pub open spec fn entry_name(&self) -> Option<Seq<char>> {
        match self {
            SessionInner::God(s) => match s.last_entry_name {
                Some(name) => Some(name@),
                None => None,
            },
            SessionInner::Xiso(s) => s.entry_name(),
            SessionInner::Extracted(s) => s.entry_name(),
            SessionInner::Ciso(s) => Some(s.current_entry_name@),
            SessionInner::Cci(s) => Some(s.current_entry_name@),
            SessionInner::Zar(_) | SessionInner::Stfs(_) => None,
        }
    }

    pub fn current_entry_name(&self) -> (r: Option<String>)
        requires
            self.wf(),
        ensures
            match r {
                Some(s) => self.entry_name() == Some(s@),
                None => self.entry_name() is None,
            },
    {
        let name: Option<&str> = match self {
            SessionInner::God(s) => s.current_entry_name(),
            SessionInner::Xiso(s) => s.current_entry_name(),
            SessionInner::Extracted(s) => s.current_entry_name(),
            SessionInner::Ciso(s) => Some(s.current_entry_name()),
            SessionInner::Cci(s) => Some(s.current_entry_name()),
            SessionInner::Zar(s) => s.current_entry_name(),
            SessionInner::Stfs(s) => s.current_entry_name(),
        };
        match name {
            Some(s) => Some(s.to_owned()),
            None => None,
        }
    }

    /// Name and size of every file that is written, as far as they are known.
    pub open spec fn lists(&self, m: Seq<(String, u64)>, header_size: u64) -> bool {
        match self {
            SessionInner::God(s) => {
                &&& m.len() == s.part_count + 1
                &&& forall|p: int|
                    0 <= p < s.part_count ==> (#[trigger] m[p]).0@ == crate::god::write::part_path(
                        s.prefix(),
                        p,
                    ) && m[p].1 == crate::god::write::planned_part_size(s.data_size as int, p)
                &&& m.last().0@ == s.prefix()
                &&& m.last().1 == header_size
            },
            SessionInner::Xiso(s) => match s.base() {
                Some(base) => crate::xiso::format::is_manifest(m, base, s.total() * 2048),
                None => m.len() == 0,
            },
            SessionInner::Extracted(s) => {
                &&& m.len() == s.count()
                &&& forall|k: int|
                    0 <= k < m.len() ==> (#[trigger] m[k]).0@ == s.path(k) && m[k].1 == s.file(
                        k,
                    ).len()
            },
            SessionInner::Ciso(s) => {
                &&& m.len() == (if s.sizing_done {
                    s.parts@.len()
                } else {
                    0
                })
                &&& forall|j: int|
                    0 <= j < m.len() ==> (#[trigger] m[j]).0@ == crate::ciso::format::output_name(
                        s.base_name@,
                        j,
                        s.parts@.len() as int,
                    ) && m[j].1 == crate::ciso::write::part_size(
                        s.plan@,
                        crate::ciso::write::base_of(s.n(), j),
                        s.parts@[j].first_sector as int,
                        s.parts@[j].end_sector as int,
                    )
            },
            SessionInner::Cci(s) => {
                &&& m.len() == (if s.sizing_done {
                    s.parts@.len()
                } else {
                    0
                })
                &&& forall|j: int|
                    0 <= j < m.len() ==> (#[trigger] m[j]).0@ == crate::cci::format::output_name(
                        s.base_name@,
                        j,
                        s.parts@.len() as int,
                    ) && m[j].1 == crate::cci::write::part_image(
                        s.plan@,
                        s.parts@[j].first_sector as int,
                        s.parts@[j].end(),
                    ).len()
            },
            SessionInner::Zar(s) => if s.phase == Phase::Done {
                m.len() == 1 && m[0].0@ == s.base_name@ + ".zar"@ && m[0].1 == s.image().len()
            } else {
                m.len() == 0
            },
            SessionInner::Stfs(s) => m.len() == 1 && m[0].0@ == s.output_name@ && m[0].1
                == s.package_size(),
        }
    }

    /// Name and size of every file that is written, as far as they are known. `header_size` is
    /// that of a Games on Demand header.
    pub fn output_manifest(&self, header_size: u64) -> (r: Vec<(String, u64)>)
        requires
            self.wf(),
        ensures
            self.lists(r@, header_size),
    {
        match self {
            SessionInner::God(s) => s.output_manifest(header_size),
            SessionInner::Xiso(s) => s.output_manifest(),
            SessionInner::Extracted(s) => s.output_manifest(),
            SessionInner::Ciso(s) => s.output_manifest(),
            SessionInner::Cci(s) => s.output_manifest(),
            SessionInner::Zar(s) => s.output_manifest(),
            SessionInner::Stfs(s) => s.output_manifest(),
        }
    }
}

} // verus!
