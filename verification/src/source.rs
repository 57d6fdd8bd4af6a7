//! Where bytes come from: part files, images and sets of files.
use crate::bytes::{copy_range, put_slice, put_zeros};
use std::collections::HashSet;
use vstd::prelude::*;
use vstd::std_specs::hash::*;

verus! {

/// A source could not deliver the bytes asked for.
#[derive(Clone, Copy, Debug, PartialEq, Eq, Structural)]
pub struct ReadError;

/// A file or image that is read at any offset. Of a source that says no more of itself, nothing is
/// known but that what it delivers is part of its contents; any read of it may fail.
pub trait ByteSource {
    /// What the source holds.
    open spec fn bytes(&self) -> Seq<u8> {
        arbitrary()
    }

    /// The source is in a state in which it can be read.
    open spec fn valid(&self) -> bool {
        true
    }

    /// Every read within the contents succeeds.
    open spec fn reliable(&self) -> bool {
        false
    }

    /// How many bytes the source holds.
    fn size(&self) -> (r: u64)
        requires
            self.valid(),
        ensures
            r == self.bytes().len(),
    ;

    /// The `n` bytes from offset `at`.
    fn read_at(&mut self, at: u64, n: usize) -> (r: Result<Vec<u8>, ReadError>)
        requires
            old(self).valid(),
        ensures
            final(self).valid(),
            final(self).bytes() == old(self).bytes(),
            final(self).reliable() == old(self).reliable(),
            r matches Ok(v) ==> at + n <= old(self).bytes().len() && v@ == old(
                self,
            ).bytes().subrange(at as int, at + n),
            old(self).reliable() && at + n <= old(self).bytes().len() ==> r is Ok,
    ;
}

/// A set of files, each with a path and contents. Of a set that says no more of itself, nothing is
/// known but that what it delivers is part of its files; any read of it may fail.
pub trait FileSource {
    /// The path of each file.
    open spec fn paths(&self) -> Seq<Seq<char>> {
        arbitrary()
    }

    /// The contents of each file.
    open spec fn contents(&self) -> Seq<Seq<u8>> {
        arbitrary()
    }

    /// The source is in a state in which it can be read.
    open spec fn valid(&self) -> bool {
        true
    }

    /// Every read within a file succeeds.
    open spec fn reliable(&self) -> bool {
        false
    }

    /// Path and size of each file, in order.
    fn file_entries(&self) -> (r: Vec<(String, u64)>)
        requires
            self.valid(),
        ensures
            r@.len() == self.paths().len() == self.contents().len(),
            forall|i: int|
                0 <= i < r@.len() ==> (#[trigger] r@[i]).0@ == self.paths()[i] && r@[i].1
                    == self.contents()[i].len(),
    ;

    /// The `n` bytes of file `idx` from offset `offset_in_file`.
    fn read_file_range(&mut self, idx: usize, offset_in_file: u64, n: usize) -> (r: Result<
        Vec<u8>,
        ReadError,
    >)
        requires
            old(self).valid(),
        ensures
            final(self).valid(),
            final(self).paths() == old(self).paths(),
            final(self).contents() == old(self).contents(),
            final(self).reliable() == old(self).reliable(),
            r matches Ok(v) ==> idx < old(self).contents().len() && offset_in_file + n <= old(
                self,
            ).contents()[idx as int].len() && v@ == old(self).contents()[idx as int].subrange(
                offset_in_file as int,
                offset_in_file + n,
            ),
            old(self).reliable() && idx < old(self).contents().len() && offset_in_file + n <= old(
                self,
            ).contents()[idx as int].len() ==> r is Ok,
    ;
}

/// Bytes held in memory.
pub struct MemorySource {
    pub data: Vec<u8>,
}

impl ByteSource for MemorySource {
    open spec fn bytes(&self) -> Seq<u8> {
        self.data@
    }

    open spec fn valid(&self) -> bool {
        true
    }

    open spec fn reliable(&self) -> bool {
        true
    }

    fn size(&self) -> (r: u64) {
        self.data.len() as u64
    }

    fn read_at(&mut self, at: u64, n: usize) -> (r: Result<Vec<u8>, ReadError>) {
        let len: u64 = self.data.len() as u64;
        if at > len || n as u64 > len - at {
            return Err(ReadError);
        }
        Ok(copy_range(self.data.as_slice(), at as usize, at as usize + n))
    }
}

/// A file that lies in one piece in an image.
pub struct ImageFile {
    pub path: String,
    pub offset: u64,
    pub size: u64,
}

/// The files of an image, each in one piece.
pub struct ImageFiles<S: ByteSource> {
    image: S,
    files: Vec<ImageFile>,
}

/// Every file lies within the image.
pub open spec fn files_lie_within(files: Seq<ImageFile>, image: Seq<u8>) -> bool {
    forall|i: int|
        0 <= i < files.len() ==> (#[trigger] files[i]).offset + files[i].size <= image.len()
}

/// What the files of an image hold; zeros stand for what lies outside it.
pub open spec fn files_of(files: Seq<ImageFile>, image: Seq<u8>) -> Seq<Seq<u8>> {
    files.map_values(
        |f: ImageFile|
            Seq::new(
                f.size as nat,
                |j: int|
                    if f.offset + j < image.len() {
                        image[f.offset + j]
                    } else {
                        0
                    },
            ),
    )
}

/// The paths of the files of an image.
pub open spec fn paths_of(files: Seq<ImageFile>) -> Seq<Seq<char>> {
    files.map_values(|f: ImageFile| f.path@)
}

impl<S: ByteSource> ImageFiles<S> {
    /// The files of `image`. One that lies outside it cannot be read there.
    pub fn new(image: S, files: Vec<ImageFile>) -> (r: ImageFiles<S>)
        requires
            image.valid(),
        ensures
            r.valid(),
            r.contents() == files_of(files@, image.bytes()),
            r.paths() == paths_of(files@),
            r.reliable() == (image.reliable() && files_lie_within(files@, image.bytes())),
    {
        ImageFiles { image, files }
    }
}

impl<S: ByteSource> FileSource for ImageFiles<S> {
    closed spec fn paths(&self) -> Seq<Seq<char>> {
        paths_of(self.files@)
    }

    closed spec fn contents(&self) -> Seq<Seq<u8>> {
        files_of(self.files@, self.image.bytes())
    }

    closed spec fn valid(&self) -> bool {
        self.image.valid()
    }

    closed spec fn reliable(&self) -> bool {
        self.image.reliable() && files_lie_within(self.files@, self.image.bytes())
    }

    fn file_entries(&self) -> (r: Vec<(String, u64)>) {
        let mut r: Vec<(String, u64)> = Vec::new();
        let mut i: usize = 0;
        while i < self.files.len()
            invariant
                i <= self.files@.len(),
                r@.len() == i,
                forall|j: int|
                    0 <= j < i ==> (#[trigger] r@[j]).0@ == self.paths()[j] && r@[j].1
                        == self.contents()[j].len(),
            decreases self.files@.len() - i,
        {
            r.push((self.files[i].path.clone(), self.files[i].size));
            i = i + 1;
        }
        r
    }

    fn read_file_range(&mut self, idx: usize, offset_in_file: u64, n: usize) -> (r: Result<
        Vec<u8>,
        ReadError,
    >) {
        if idx >= self.files.len() {
            return Err(ReadError);
        }
        let size: u64 = self.files[idx].size;
        let offset: u64 = self.files[idx].offset;
        if offset_in_file > size || n as u64 > size - offset_in_file {
            return Err(ReadError);
        }
        let total: u64 = self.image.size();
        if offset > total || offset_in_file > total - offset {
            assert(self.files@[idx as int].offset + size > total);
            return Err(ReadError);
        }
        let r = self.image.read_at(offset + offset_in_file, n);
        if let Ok(v) = &r {
            assert(v@ =~= self.contents()[idx as int].subrange(
                offset_in_file as int,
                offset_in_file + n,
            ));
        } else {
            assert(files_lie_within(self.files@, self.image.bytes()) ==> self.files@[idx as int].offset
                + size <= total);
        }
        r
    }
}

/// An entry of the directory tree of an image.
pub struct DirectoryEntry {
    pub path: String,
    pub sector: u32,
    pub size: u32,
    pub is_directory: bool,
}

/// The file that a directory entry stands for.
pub open spec fn is_listed_file(e: DirectoryEntry, f: ImageFile) -> bool {
    f.path@ == e.path@ && f.offset == e.sector * 2048 && f.size == e.size
}

/// Which of the first `n` entries are files, in order.
pub open spec fn file_indices(entries: Seq<DirectoryEntry>, n: int) -> Seq<int>
    decreases n,
{
    if n <= 0 {
        Seq::empty()
    } else if entries[n - 1].is_directory {
        file_indices(entries, n - 1)
    } else {
        file_indices(entries, n - 1).push(n - 1)
    }
}

/// `files` are the files among `entries`.
pub open spec fn lists_entries(entries: Seq<DirectoryEntry>, files: Seq<ImageFile>) -> bool {
    let all = file_indices(entries, entries.len() as int);
    &&& files.len() == all.len()
    &&& forall|k: int|
        0 <= k < files.len() ==> is_listed_file(entries[all[k]], #[trigger] files[k])
}

/// The files of a directory tree, in its order, at offsets counted from the root of the image.
pub fn list_files(entries: &[DirectoryEntry]) -> (r: Vec<ImageFile>)
    ensures
        lists_entries(entries@, r@),
{
    let mut r: Vec<ImageFile> = Vec::new();
    let mut i: usize = 0;
    while i < entries.len()
        invariant
            i <= entries@.len(),
            r@.len() == file_indices(entries@, i as int).len(),
            forall|k: int|
                0 <= k < r@.len() ==> is_listed_file(
                    entries@[file_indices(entries@, i as int)[k]],
                    #[trigger] r@[k],
                ),
        decreases entries@.len() - i,
    {
        let e = &entries[i];
        if !e.is_directory {
            r.push(
                ImageFile {
                    path: e.path.clone(),
                    offset: e.sector as u64 * 2048,
                    size: e.size as u64,
                },
            );
        }
        i = i + 1;
    }
    r
}

/// Bytes of a disc sector.
pub const SECTOR_SIZE: u64 = 2048;

/// An image that is read sector by sector.
pub trait ImageSource: Sized {
    /// Why a sector cannot be read.
    type Failure;

    /// The image is in a state in which it can be read.
    spec fn usable(&self) -> bool;

    /// How many sectors the image has.
    spec fn sector_count(&self) -> int;

    /// What a sector holds, or why it cannot be read.
    spec fn sector(&self, s: int) -> Result<Seq<u8>, Self::Failure>;

    /// A failure that says nothing of the image: what lies below may fail to be read.
    spec fn excused(&self, e: Self::Failure) -> bool;

    fn total_sectors(&self) -> (r: u64)
        requires
            self.usable(),
        ensures
            r == self.sector_count(),
    ;

    fn read_sector(&mut self, sector: u64) -> (r: Result<Vec<u8>, Self::Failure>)
        requires
            old(self).usable(),
        ensures
            final(self).usable(),
            final(self).sector_count() == old(self).sector_count(),
            forall|s: int| #[trigger] final(self).sector(s) == old(self).sector(s),
            forall|e: Self::Failure| #[trigger] final(self).excused(e) == old(self).excused(e),
            match r {
                Ok(v) => old(self).sector(sector as int) == Ok::<Seq<u8>, Self::Failure>(v@)
                    && v@.len() == 2048,
                Err(e) => old(self).excused(e) || old(self).sector(sector as int) == Err::<
                    Seq<u8>,
                    Self::Failure,
                >(e),
            },
    ;
}

/// The `n` bytes of an image from offset `at`; the failure of the first sector that cannot be
/// read.
pub open spec fn image_span<I: ImageSource>(image: I, at: int, n: int) -> Result<
    Seq<u8>,
    I::Failure,
>
    decreases n,
{
    let pos = at % 2048;
    let m = if n < 2048 - pos {
        n
    } else {
        2048 - pos
    };
    if n <= 0 || m <= 0 {
        Ok(Seq::empty())
    } else {
        match image.sector(at / 2048) {
            Err(e) => Err(e),
            Ok(s) => match image_span(image, at + m, n - m) {
                Err(e) => Err(e),
                Ok(rest) => Ok(s.subrange(pos, pos + m) + rest),
            },
        }
    }
}

/// Reads the `n` bytes of an image from `offset`, out of the sectors they fall in.
pub fn read_bytes<I: ImageSource>(image: &mut I, offset: u64, n: usize) -> (r: Result<
    Vec<u8>,
    I::Failure,
>)
    requires
        old(image).usable(),
        offset + n <= u64::MAX,
    ensures
        final(image).usable(),
        final(image).sector_count() == old(image).sector_count(),
        forall|s: int| #[trigger] final(image).sector(s) == old(image).sector(s),
        forall|e: I::Failure| #[trigger] final(image).excused(e) == old(image).excused(e),
        match r {
            Ok(v) => image_span(*old(image), offset as int, n as int) == Ok::<
                Seq<u8>,
                I::Failure,
            >(v@),
            Err(e) => old(image).excused(e) || image_span(*old(image), offset as int, n as int)
                == Err::<Seq<u8>, I::Failure>(e),
        },
{
    let ghost start = *image;
    let ghost goal = image_span(start, offset as int, n as int);
    let mut out: Vec<u8> = Vec::new();
    proof {
        if let Ok(s) = goal {
            assert(out@ + s =~= s);
        }
    }
    while out.len() < n
        invariant
            image.usable(),
            image.sector_count() == start.sector_count(),
            forall|s: int| #[trigger] image.sector(s) == start.sector(s),
            forall|e: I::Failure| #[trigger] image.excused(e) == start.excused(e),
            start == *old(image),
            offset + n <= u64::MAX,
            out@.len() <= n,
            goal == image_span(start, offset as int, n as int),
            goal == (match image_span(start, offset + out@.len(), n - out@.len()) {
                Ok(s) => Ok::<Seq<u8>, I::Failure>(out@ + s),
                Err(e) => Err::<Seq<u8>, I::Failure>(e),
            }),
        decreases n - out@.len(),
    {
        let at: u64 = offset + out.len() as u64;
        let pos: usize = (at % SECTOR_SIZE) as usize;
        let want: usize = n - out.len();
        let m: usize = if want < 2048 - pos {
            want
        } else {
            2048 - pos
        };
        let ghost before = *image;
        let sector = match image.read_sector(at / SECTOR_SIZE) {
            Ok(s) => s,
            Err(e) => {
                assert(before.excused(e) == start.excused(e));
                assert(before.sector(at as int / 2048) == start.sector(at as int / 2048));
                return Err(e);
            },
        };
        proof {
            assert(before.sector(at as int / 2048) == start.sector(at as int / 2048));
            assert forall|s: int| #[trigger] image.sector(s) == start.sector(s) by {
                assert(before.sector(s) == start.sector(s));
            }
            assert forall|e: I::Failure| #[trigger] image.excused(e) == start.excused(e) by {
                assert(before.excused(e) == start.excused(e));
            }
        }
        let piece = copy_range(sector.as_slice(), pos, pos + m);
        let ghost prefix = out@;
        crate::bytes::put_slice(&mut out, piece.as_slice());
        proof {
            if let Ok(s) = image_span(start, offset + out@.len(), n - out@.len()) {
                assert(prefix + (piece@ + s) =~= out@ + s);
            }
        }
    }
    assert(out@ + Seq::<u8>::empty() =~= out@);
    Ok(out)
}

/// Everything an image holds, sector by sector; zeros where a sector cannot be read.
pub open spec fn image_bytes<I: ImageSource>(image: I) -> Seq<u8> {
    Seq::new(
        (image.sector_count() * 2048) as nat,
        |i: int|
            match image.sector(i / 2048) {
                Ok(s) => s[i % 2048],
                Err(_) => 0,
            },
    )
}

/// An image that is read at any offset, out of its sectors.
pub struct DecodedImage<I: ImageSource> {
    pub image: I,
}

proof fn lemma_span_is_image<I: ImageSource>(image: I, at: int, n: int)
    requires
        0 <= at,
        0 <= n,
        at + n <= image.sector_count() * 2048,
        forall|s: int| #[trigger] image.sector(s) is Ok ==> image.sector(s)->Ok_0.len() == 2048,
    ensures
        image_span(image, at, n) matches Ok(v) ==> v == image_bytes(image).subrange(at, at + n),
        (forall|s: int|
            0 <= s < image.sector_count() ==> #[trigger] image.sector(s) is Ok) ==> image_span(
            image,
            at,
            n,
        ) is Ok,
    decreases n,
{
    let pos = at % 2048;
    let m = if n < 2048 - pos {
        n
    } else {
        2048 - pos
    };
    if n > 0 {
        lemma_span_is_image(image, at + m, n - m);
        assert(0 <= at / 2048 < image.sector_count());
        if let Ok(v) = image_span(image, at, n) {
            let rest = image_bytes(image).subrange(at + m, at + n);
            assert forall|j: int| 0 <= j < n implies v[j] == image_bytes(image)[at + j] by {
                if j < m {
                    assert((at + j) / 2048 == at / 2048);
                    assert((at + j) % 2048 == pos + j);
                } else {
                    assert(v[j] == rest[j - m]);
                }
            }
            assert(v =~= image_bytes(image).subrange(at, at + n));
        }
    } else {
        assert(image_bytes(image).subrange(at, at + n) =~= Seq::empty());
    }
}

impl<I: ImageSource> ByteSource for DecodedImage<I> {
    open spec fn bytes(&self) -> Seq<u8> {
        image_bytes(self.image)
    }

    open spec fn valid(&self) -> bool {
        &&& self.image.usable()
        &&& 0 <= self.image.sector_count()
        &&& self.image.sector_count() * 2048 <= u64::MAX
        &&& forall|s: int|
            #[trigger] self.image.sector(s) is Ok ==> self.image.sector(s)->Ok_0.len() == 2048
    }

    open spec fn reliable(&self) -> bool {
        &&& forall|s: int|
            0 <= s < self.image.sector_count() ==> #[trigger] self.image.sector(s) is Ok
        &&& forall|e: I::Failure| !#[trigger] self.image.excused(e)
    }

    fn size(&self) -> (r: u64) {
        self.image.total_sectors() * SECTOR_SIZE
    }

    fn read_at(&mut self, at: u64, n: usize) -> (r: Result<Vec<u8>, ReadError>) {
        let size: u64 = self.image.total_sectors() * SECTOR_SIZE;
        if at > size || n as u64 > size - at {
            return Err(ReadError);
        }
        let ghost start = self.image;
        proof {
            lemma_span_is_image(start, at as int, n as int);
        }
        let r = read_bytes(&mut self.image, at, n);
        proof {
            assert(image_bytes(self.image) =~= image_bytes(start)) by {
                assert forall|i: int| 0 <= i < start.sector_count() * 2048 implies image_bytes(
                    self.image,
                )[i] == image_bytes(start)[i] by {
                    assert(self.image.sector(i / 2048) == start.sector(i / 2048));
                }
            }
            let before = DecodedImage { image: start };
            assert(self.reliable() == before.reliable()) by {
                assert forall|s: int| #[trigger] start.sector(s) == self.image.sector(s) by {
                }
                assert forall|e: I::Failure| #[trigger] start.excused(e)
                    == self.image.excused(e) by {
                }
            }
            assert forall|s: int| #[trigger]
                self.image.sector(s) is Ok implies self.image.sector(s)->Ok_0.len() == 2048 by {
                assert(self.image.sector(s) == start.sector(s));
            }
        }
        match r {
            Ok(v) => Ok(v),
            Err(_) => Err(ReadError),
        }
    }
}

/// An image some of whose sectors read as zeros.
pub struct Scrubbed<S: ByteSource> {
    pub image: S,
    pub zero_sectors: HashSet<u64>,
}

/// `b` with the sectors in `zero` zeroed.
pub open spec fn scrubbed(b: Seq<u8>, zero: Set<u64>) -> Seq<u8> {
    Seq::new(
        b.len(),
        |i: int|
            if zero.contains((i / 2048) as u64) {
                0
            } else {
                b[i]
            },
    )
}

impl<S: ByteSource> ByteSource for Scrubbed<S> {
    open spec fn bytes(&self) -> Seq<u8> {
        scrubbed(self.image.bytes(), self.zero_sectors@)
    }

    open spec fn valid(&self) -> bool {
        self.image.valid()
    }

    open spec fn reliable(&self) -> bool {
        self.image.reliable()
    }

    fn size(&self) -> (r: u64) {
        self.image.size()
    }

    fn read_at(&mut self, at: u64, n: usize) -> (r: Result<Vec<u8>, ReadError>) {
        broadcast use group_hash_axioms;

        let size: u64 = self.image.size();
        let raw = match self.image.read_at(at, n) {
            Ok(v) => v,
            Err(e) => {
                return Err(e);
            },
        };
        let ghost b = self.image.bytes();
        let ghost zero = self.zero_sectors@;
        let mut out: Vec<u8> = Vec::new();
        assert(out@ =~= scrubbed(b, zero).subrange(at as int, at as int));
        while out.len() < n
            invariant
                out@.len() <= n,
                at + n <= size,
                size == b.len(),
                raw@ == b.subrange(at as int, at + n),
                zero == self.zero_sectors@,
                out@ == scrubbed(b, zero).subrange(at as int, at + out@.len()),
            decreases n - out@.len(),
        {
            broadcast use group_hash_axioms;

            let done: usize = out.len();
            let pos: u64 = at + done as u64;
            let sector: u64 = pos / SECTOR_SIZE;
            let left_in_sector: u64 = SECTOR_SIZE - pos % SECTOR_SIZE;
            let want: usize = n - done;
            let m: usize = if (want as u64) < left_in_sector {
                want
            } else {
                left_in_sector as usize
            };
            let ghost before = out@;
            if self.zero_sectors.contains(&sector) {
                put_zeros(&mut out, m);
            } else {
                let piece = copy_range(raw.as_slice(), done, done + m);
                put_slice(&mut out, piece.as_slice());
            }
            proof {
                assert forall|j: int| 0 <= j < m implies #[trigger] out@[done + j] == scrubbed(b, zero)[pos
                    + j] by {
                    assert((pos + j) / 2048 == sector);
                }
                assert(out@ =~= scrubbed(b, zero).subrange(at as int, at + out@.len()));
            }
        }
        Ok(out)
    }
}

/// The contents of the first `k` parts, back to back.
pub open spec fn joined_parts<S: ByteSource>(parts: Seq<S>, k: int) -> Seq<u8>
    decreases k,
{
    if k <= 0 {
        Seq::empty()
    } else {
        joined_parts(parts, k - 1) + parts[k - 1].bytes()
    }
}

/// One file in several parts.
pub struct Concatenated<S: ByteSource> {
    pub parts: Vec<S>,
}

/// The parts hold the same bytes, as reliably.
pub open spec fn same_parts<S: ByteSource>(a: Seq<S>, b: Seq<S>) -> bool {
    &&& a.len() == b.len()
    &&& forall|i: int|
        0 <= i < a.len() ==> (#[trigger] a[i]).bytes() == b[i].bytes() && a[i].reliable()
            == b[i].reliable()
}

proof fn lemma_joined_same<S: ByteSource>(a: Seq<S>, b: Seq<S>, k: int)
    requires
        same_parts(a, b),
        k <= a.len(),
    ensures
        joined_parts(a, k) == joined_parts(b, k),
    decreases k,
{
    if k > 0 {
        lemma_joined_same(a, b, k - 1);
        assert(a[k - 1].bytes() == b[k - 1].bytes());
    }
}

proof fn lemma_joined_prefix<S: ByteSource>(parts: Seq<S>, i: int, j: int)
    requires
        0 <= i <= j,
    ensures
        joined_parts(parts, i).len() <= joined_parts(parts, j).len(),
        joined_parts(parts, j).take(joined_parts(parts, i).len() as int) == joined_parts(parts, i),
    decreases j,
{
    let a = joined_parts(parts, i);
    if i < j {
        lemma_joined_prefix(parts, i, j - 1);
        assert(joined_parts(parts, j).take(a.len() as int) =~= joined_parts(parts, j - 1).take(
            a.len() as int,
        ));
    } else {
        assert(a.take(a.len() as int) =~= a);
    }
}

impl<S: ByteSource> Concatenated<S> {
    /// One file of these parts; none if they are too long to count.
    pub fn new(parts: Vec<S>) -> (r: Option<Concatenated<S>>)
        requires
            forall|i: int| 0 <= i < parts@.len() ==> (#[trigger] parts@[i]).valid(),
        ensures
            r is Some <==> joined_parts(parts@, parts@.len() as int).len() <= u64::MAX,
            r matches Some(c) ==> c.valid() && c.parts == parts,
    {
        let mut total: u64 = 0;
        let mut i: usize = 0;
        while i < parts.len()
            invariant
                i <= parts@.len(),
                forall|j: int| 0 <= j < parts@.len() ==> (#[trigger] parts@[j]).valid(),
                total == joined_parts(parts@, i as int).len(),
            decreases parts@.len() - i,
        {
            assert(parts@[i as int].valid());
            let size: u64 = parts[i].size();
            if size > 0xFFFF_FFFF_FFFF_FFFF - total {
                proof {
                    lemma_joined_prefix(parts@, i + 1, parts@.len() as int);
                }
                return None;
            }
            total = total + size;
            i = i + 1;
        }
        Some(Concatenated { parts })
    }
}

impl<S: ByteSource> ByteSource for Concatenated<S> {
    open spec fn bytes(&self) -> Seq<u8> {
        joined_parts(self.parts@, self.parts@.len() as int)
    }

    open spec fn valid(&self) -> bool {
        &&& forall|i: int| 0 <= i < self.parts@.len() ==> (#[trigger] self.parts@[i]).valid()
        &&& self.bytes().len() <= u64::MAX
    }

    open spec fn reliable(&self) -> bool {
        forall|i: int| 0 <= i < self.parts@.len() ==> (#[trigger] self.parts@[i]).reliable()
    }

    fn size(&self) -> (r: u64) {
        let mut total: u64 = 0;
        let mut i: usize = 0;
        while i < self.parts.len()
            invariant
                i <= self.parts@.len(),
                self.valid(),
                total == joined_parts(self.parts@, i as int).len(),
            decreases self.parts@.len() - i,
        {
            proof {
                assert(self.parts@[i as int].valid());
                lemma_joined_prefix(self.parts@, i + 1, self.parts@.len() as int);
            }
            total = total + self.parts[i].size();
            i = i + 1;
        }
        total
    }

    fn read_at(&mut self, at: u64, n: usize) -> (r: Result<Vec<u8>, ReadError>) {
        let total: u64 = self.size();
        if at > total || n as u64 > total - at {
            return Err(ReadError);
        }
        let ghost start = *self;
        let ghost whole = self.bytes();
        let count: usize = self.parts.len();
        let mut out: Vec<u8> = Vec::new();
        let mut base: u64 = 0;
        let mut i: usize = 0;
        assert(out@ =~= whole.subrange(at as int, at as int));
        while i < count && out.len() < n
            invariant
                i <= count == self.parts@.len(),
                start == *old(self),
                same_parts(self.parts@, start.parts@),
                forall|j: int| 0 <= j < self.parts@.len() ==> (#[trigger] self.parts@[j]).valid(),
                whole == start.bytes(),
                start.valid(),
                total == whole.len(),
                at + n <= total,
                base == joined_parts(start.parts@, i as int).len(),
                out@.len() <= n,
                out@.len() < n ==> at + out@.len() >= base,
                out@ == whole.subrange(at as int, at + out@.len()),
            decreases count - i,
        {
            proof {
                assert(self.parts@[i as int].valid());
                assert(self.parts@[i as int].bytes() == start.parts@[i as int].bytes());
                lemma_joined_prefix(start.parts@, i + 1, count as int);
            }
            let size: u64 = self.parts[i].size();
            let pos: u64 = at + out.len() as u64;
            if pos - base < size {
                let within: u64 = pos - base;
                let want: usize = n - out.len();
                let m: usize = if (want as u64) < size - within {
                    want
                } else {
                    (size - within) as usize
                };
                let ghost before = self.parts@;
                let r = self.parts[i].read_at(within, m);
                proof {
                    assert forall|j: int| 0 <= j < self.parts@.len() implies (
                    #[trigger] self.parts@[j]).valid() && self.parts@[j].bytes()
                        == start.parts@[j].bytes() && self.parts@[j].reliable()
                        == start.parts@[j].reliable() by {
                        assert(before[j].valid());
                        assert(before[j].bytes() == start.parts@[j].bytes());
                    }
                }
                match r {
                    Ok(piece) => {
                        let ghost sofar = out@;
                        put_slice(&mut out, piece.as_slice());
                        proof {
                            let upto = joined_parts(start.parts@, i + 1);
                            assert forall|j: int| 0 <= j < m implies piece@[j] == whole[pos
                                + j] by {
                                assert(whole.take(upto.len() as int)[pos + j] == upto[pos + j]);
                            }
                            assert(out@ =~= whole.subrange(at as int, at + out@.len()));
                        }
                    },
                    Err(e) => {
                        proof {
                            lemma_joined_same(self.parts@, start.parts@, count as int);
                            assert(!start.parts@[i as int].reliable());
                            assert(!self.parts@[i as int].reliable());
                        }
                        return Err(e);
                    },
                }
            }
            base = base + size;
            i = i + 1;
        }
        proof {
            lemma_joined_same(self.parts@, start.parts@, count as int);
            assert(self.reliable() == start.reliable()) by {
                assert forall|j: int| 0 <= j < count implies (
                #[trigger] self.parts@[j]).reliable() == start.parts@[j].reliable() by {
                }
                assert forall|j: int| 0 <= j < count implies (
                #[trigger] start.parts@[j]).reliable() == self.parts@[j].reliable() by {
                }
            }
        }
        Ok(out)
    }
}

/// The files of a directory tree are its entries that are no directories: each of them is listed
/// under its path, 2048 bytes to each sector before it, with its size, and nothing else is. They
/// keep their order.
pub proof fn every_file_entry_is_listed(
    entries: Seq<DirectoryEntry>,
    files: Seq<ImageFile>,
    i: int,
)
    requires
        lists_entries(entries, files),
        0 <= i < entries.len(),
        !entries[i].is_directory,
    ensures
        exists|k: int|
            0 <= k < files.len() && (#[trigger] files[k]).path@ == entries[i].path@
                && files[k].offset == 2048 * entries[i].sector && files[k].size == entries[i].size,
{
    let n = entries.len() as int;
    file_indices_are_the_files(entries, n);
    let all = file_indices(entries, n);
    assert(all.contains(i));
    let k = choose|k: int| 0 <= k < all.len() && all[k] == i;
    assert(is_listed_file(entries[all[k]], files[k]));
}

/// Which of the first `n` entries are files: every one that is no directory, and no other, in
/// their order.
pub proof fn file_indices_are_the_files(entries: Seq<DirectoryEntry>, n: int)
    requires
        0 <= n <= entries.len(),
    ensures
        forall|i: int|
            0 <= i < n ==> file_indices(entries, n).contains(i) == !(
            #[trigger] entries[i]).is_directory,
        forall|k: int|
            0 <= k < file_indices(entries, n).len() ==> 0 <= #[trigger] file_indices(entries, n)[k]
                < n,
        forall|a: int, b: int|
            0 <= a < b < file_indices(entries, n).len() ==> #[trigger] file_indices(entries, n)[a]
                < #[trigger] file_indices(entries, n)[b],
    decreases n,
{
    if n > 0 {
        file_indices_are_the_files(entries, n - 1);
        let before = file_indices(entries, n - 1);
        let now = file_indices(entries, n);
        assert forall|k: int| 0 <= k < now.len() implies 0 <= #[trigger] now[k] < n by {
            assert(k < before.len() ==> 0 <= before[k] < n - 1);
        }
        assert forall|a: int, b: int| 0 <= a < b < now.len() implies #[trigger] now[a]
            < #[trigger] now[b] by {
            assert(before[a] < n - 1);
            if b < before.len() {
                assert(before[a] < before[b]);
            }
        }
        assert forall|i: int| 0 <= i < n implies now.contains(i) == !(
        #[trigger] entries[i]).is_directory by {
            if now.len() > before.len() {
                assert(now[before.len() as int] == n - 1);
            }
            if i < n - 1 {
                if before.contains(i) {
                    let k = choose|k: int| 0 <= k < before.len() && before[k] == i;
                    assert(now[k] == i);
                }
                if now.contains(i) {
                    let k = choose|k: int| 0 <= k < now.len() && now[k] == i;
                    assert(before[k] == i);
                }
            } else if now.contains(i) {
                let k = choose|k: int| 0 <= k < now.len() && now[k] == i;
                assert(k < before.len() ==> before[k] < n - 1);
            }
        }
    }
}

/// A file of an image holds what the image holds from its offset on, byte by byte.
pub proof fn files_hold_what_the_image_holds(files: Seq<ImageFile>, image: Seq<u8>, i: int, j: int)
    requires
        0 <= i < files.len(),
        0 <= j < files[i].size,
    ensures
        files_of(files, image).len() == files.len(),
        files_of(files, image)[i].len() == files[i].size,
        files[i].offset + j < image.len() ==> files_of(files, image)[i][j]
            == image[files[i].offset + j],
        paths_of(files)[i] == files[i].path@,
{
}

/// A read across sectors gives, byte by byte, what its sectors hold, 2048 bytes to each.
pub proof fn spans_are_read_across_sectors<I: ImageSource>(image: I, at: int, n: int, i: int)
    requires
        0 <= at,
        0 <= i < n,
        forall|s: int| #[trigger] image.sector(s) is Ok ==> image.sector(s)->Ok_0.len() == 2048,
    ensures
        image_span(image, at, n) matches Ok(v) ==> {
            &&& v.len() == n
            &&& image.sector((at + i) / 2048) is Ok
            &&& v[i] == image.sector((at + i) / 2048)->Ok_0[(at + i) % 2048]
        },
        image_span(image, at, n) is Err ==> exists|s: int|
            at / 2048 <= s <= (at + n - 1) / 2048 && #[trigger] image.sector(s) is Err,
    decreases n,
{
    let pos = at % 2048;
    let m = if n < 2048 - pos {
        n
    } else {
        2048 - pos
    };
    let here = image.sector(at / 2048);
    assert(at / 2048 * 2048 + pos == at);
    if i < m {
        assert((at + i) / 2048 == at / 2048);
        assert((at + i) % 2048 == pos + i);
    }
    if m < n {
        assert((at + m) / 2048 == at / 2048 + 1);
        spans_are_read_across_sectors(image, at + m, n - m, if i < m {
            0
        } else {
            i - m
        });
    } else {
        assert(image_span(image, at + m, 0) == Ok::<Seq<u8>, I::Failure>(Seq::empty()));
    }
    if image_span(image, at, n) is Err && here is Err {
        assert(image.sector(at / 2048) is Err);
    }
}

/// An image is its sectors, 2048 bytes to each.
pub proof fn images_are_their_sectors<I: ImageSource>(image: DecodedImage<I>, s: int, i: int)
    requires
        0 <= s < image.image.sector_count(),
        0 <= i < 2048,
        image.image.sector(s) is Ok,
    ensures
        image.bytes().len() == 2048 * image.image.sector_count(),
        image.bytes()[2048 * s + i] == image.image.sector(s)->Ok_0[i],
{
    assert((2048 * s + i) / 2048 == s);
    assert((2048 * s + i) % 2048 == i);
}

/// How many bytes the first `k` parts hold.
pub open spec fn bytes_before<S: ByteSource>(parts: Seq<S>, k: int) -> int
    decreases k,
{
    if k <= 0 {
        0
    } else {
        bytes_before(parts, k - 1) + parts[k - 1].bytes().len()
    }
}

/// A file in several parts holds each of them, behind all those before it.
pub proof fn parts_follow_each_other<S: ByteSource>(c: Concatenated<S>, i: int)
    requires
        0 <= i < c.parts@.len(),
    ensures
        c.bytes().len() == bytes_before(c.parts@, c.parts@.len() as int),
        0 <= bytes_before(c.parts@, i),
        bytes_before(c.parts@, i) + c.parts@[i].bytes().len() <= c.bytes().len(),
        c.bytes().subrange(
            bytes_before(c.parts@, i),
            bytes_before(c.parts@, i) + c.parts@[i].bytes().len(),
        ) == c.parts@[i].bytes(),
{
    lemma_part_at(c.parts@, i, c.parts@.len() as int);
}

proof fn lemma_part_at<S: ByteSource>(parts: Seq<S>, i: int, k: int)
    requires
        0 <= i,
        0 <= k <= parts.len(),
    ensures
        joined_parts(parts, k).len() == bytes_before(parts, k),
        0 <= bytes_before(parts, k),
        i < k ==> {
            let from = bytes_before(parts, i);
            let to = from + parts[i].bytes().len();
            &&& 0 <= from
            &&& to <= joined_parts(parts, k).len()
            &&& joined_parts(parts, k).subrange(from, to) == parts[i].bytes()
        },
    decreases k,
{
    if k > 0 {
        lemma_part_at(parts, i, k - 1);
        if i < k {
            let from = bytes_before(parts, i);
            let to = from + parts[i].bytes().len();
            if i == k - 1 {
                assert(joined_parts(parts, k).subrange(from, to) =~= parts[i].bytes());
            } else {
                assert(joined_parts(parts, k).subrange(from, to) =~= joined_parts(
                    parts,
                    k - 1,
                ).subrange(from, to));
            }
        }
    }
}

} // verus!
