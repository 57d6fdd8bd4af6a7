//! A raw image, in one part or several, read from the offset at which its file system starts.
use crate::source::{joined_parts, ByteSource, Concatenated, ImageSource, ReadError, SECTOR_SIZE};
use vstd::prelude::*;

verus! {

/// Why a raw image cannot be opened or read.
#[derive(Clone, Copy, Debug, PartialEq, Eq, Structural)]
pub enum XisoError {
    /// The image ends before its file system starts.
    SmallerThanRoot { total_size: u64, root_offset: u64 },
    /// The parts together are too long to count.
    TooLarge,
    /// Splitting needs a name for the parts.
    SplitNeedsName,
    /// The image has more sectors than can be addressed.
    TooManySectors,
    Read(ReadError),
}

impl XisoError {
    pub open spec fn text(&self) -> Seq<char> {
        match self {
            XisoError::SmallerThanRoot { .. } => {
                "xiso: total size is smaller than the detected root offset"@
            },
            XisoError::TooLarge => "xiso: parts are too large"@,
            XisoError::SplitNeedsName => "xiso: split requires an outputName"@,
            XisoError::TooManySectors => "xiso: too many sectors"@,
            XisoError::Read(_) => "xiso: read failed"@,
        }
    }

    pub fn message(&self) -> (r: &'static str)
        ensures
            r@ == self.text(),
    {
        match self {
            XisoError::SmallerThanRoot { .. } => {
                "xiso: total size is smaller than the detected root offset"
            },
            XisoError::TooLarge => "xiso: parts are too large",
            XisoError::SplitNeedsName => "xiso: split requires an outputName",
            XisoError::TooManySectors => "xiso: too many sectors",
            XisoError::Read(_) => "xiso: read failed",
        }
    }
}

/// A raw image whose sectors are counted from its root offset.
pub struct XisoSource<S: ByteSource> {
    pub reader: S,
    pub root_offset: u64,
}

impl<S: ByteSource> XisoSource<S> {
    pub open spec fn wf(&self) -> bool {
        self.reader.valid() && self.root_offset <= self.reader.bytes().len()
    }

    /// Opens an image in one piece.
    pub fn open(reader: S, root_offset: u64) -> (r: Result<XisoSource<S>, XisoError>)
        requires
            reader.valid(),
        ensures
            match r {
                Ok(x) => x.wf() && x.reader == reader && x.root_offset == root_offset,
                Err(e) => root_offset > reader.bytes().len() && e == (XisoError::SmallerThanRoot {
                    total_size: reader.bytes().len() as u64,
                    root_offset,
                }),
            },
    {
        let total_size: u64 = reader.size();
        if total_size < root_offset {
            return Err(XisoError::SmallerThanRoot { total_size, root_offset });
        }
        Ok(XisoSource { reader, root_offset })
    }

    /// Where the file system starts in the raw image.
    pub fn image_offset(&self) -> (r: u64)
        ensures
            r == self.root_offset,
    {
        self.root_offset
    }
}

/// Opens an image that is split over several parts.
pub fn open_multi_part<S: ByteSource>(parts: Vec<S>, root_offset: u64) -> (r: Result<
    XisoSource<Concatenated<S>>,
    XisoError,
>)
    requires
        forall|i: int| 0 <= i < parts@.len() ==> (#[trigger] parts@[i]).valid(),
    ensures
        ({
            let total = joined_parts(parts@, parts@.len() as int).len();
            match r {
                Ok(x) => x.wf() && x.reader.parts == parts && x.root_offset == root_offset,
                Err(XisoError::TooLarge) => total > u64::MAX,
                Err(e) => root_offset > total && e == (XisoError::SmallerThanRoot {
                    total_size: total as u64,
                    root_offset,
                }),
            }
        }),
{
    match Concatenated::new(parts) {
        Some(reader) => XisoSource::open(reader, root_offset),
        None => Err(XisoError::TooLarge),
    }
}

impl<S: ByteSource> ImageSource for XisoSource<S> {
    type Failure = XisoError;

    open spec fn usable(&self) -> bool {
        self.wf()
    }

    open spec fn sector_count(&self) -> int {
        (self.reader.bytes().len() - self.root_offset) / 2048
    }

    open spec fn sector(&self, s: int) -> Result<Seq<u8>, XisoError> {
        let at = self.root_offset + s * 2048;
        if 0 <= s && at + 2048 <= self.reader.bytes().len() {
            Ok(self.reader.bytes().subrange(at, at + 2048))
        } else {
            Err(XisoError::Read(ReadError))
        }
    }

    open spec fn excused(&self, e: XisoError) -> bool {
        e is Read && !self.reader.reliable()
    }

    fn total_sectors(&self) -> (r: u64) {
        (self.reader.size() - self.root_offset) / SECTOR_SIZE
    }

    fn read_sector(&mut self, sector: u64) -> (r: Result<Vec<u8>, XisoError>) {
        let total: u64 = self.reader.size();
        if sector >= (total - self.root_offset) / SECTOR_SIZE {
            return Err(XisoError::Read(ReadError));
        }
        match self.reader.read_at(self.root_offset + sector * SECTOR_SIZE, 2048) {
            Ok(v) => Ok(v),
            Err(e) => {
                assert(e == ReadError);
                Err(XisoError::Read(e))
            },
        }
    }
}

/// Sector `s` of an image stands 2048 bytes to a sector behind its root offset; only whole sectors
/// count.
pub proof fn sectors_are_counted_from_the_root<S: ByteSource>(x: XisoSource<S>, s: int)
    requires
        x.wf(),
        0 <= s,
    ensures
        ({
            let b = x.reader.bytes();
            let at = x.root_offset + 2048 * s;
            &&& s < x.sector_count() <==> at + 2048 <= b.len()
            &&& s < x.sector_count() ==> x.sector(s) == Ok::<Seq<u8>, XisoError>(
                b.subrange(at, at + 2048),
            )
            &&& s >= x.sector_count() ==> x.sector(s) is Err
        }),
{
}

} // verus!
