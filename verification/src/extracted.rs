//! Streaming the files of an image or archive out one by one, with the executable at the root
//! patched on the way if that is asked for.
use crate::bytes::copy_range;
use crate::pieces::{
    each_entry_has_a_piece, go_through, goes_on, pieces_add_up, pieces_are_in_order, pieces_of,
    same_marks_same_pieces,
};
use crate::source::{FileSource, ReadError};
use crate::utils::text::{chars_of, lower, lower_chars};
use vstd::prelude::*;
use vstd::string::*;

verus! {

/// A slash of either kind.
pub open spec fn is_slash(c: char) -> bool {
    c == '/' || c == '\\'
}

/// `path` without its leading slashes.
pub open spec fn trimmed(path: Seq<char>) -> Seq<char>
    decreases path.len(),
{
    if path.len() > 0 && is_slash(path[0]) {
        trimmed(path.drop_first())
    } else {
        path
    }
}

/// The file at the root that is named `default.xbe`, in any case.
pub open spec fn root_default_xbe(path: Seq<char>) -> bool {
    lower(trimmed(path)) == "default.xbe"@
}

/// A file of the system update that discs carry: its path begins with `$SystemUpdate`, in any
/// case.
pub open spec fn in_system_update(path: Seq<char>) -> bool {
    trimmed(path).len() >= 13 && lower(trimmed(path).take(13)) == "$systemupdate"@
}

/// Where `chars` starts once its leading slashes are left out.
fn first_kept(chars: &Vec<char>) -> (r: usize)
    ensures
        r <= chars@.len(),
        trimmed(chars@) == chars@.skip(r as int),
{
    let mut i: usize = 0;
    assert(chars@.skip(0) =~= chars@);
    while i < chars.len() && (chars[i] == '/' || chars[i] == '\\')
        invariant
            i <= chars@.len(),
            trimmed(chars@) == trimmed(chars@.skip(i as int)),
        decreases chars@.len() - i,
    {
        assert(chars@.skip(i as int).drop_first() =~= chars@.skip(i + 1));
        i = i + 1;
    }
    i
}

/// The characters of `text` stand in `chars` from `at`.
fn stands_at(chars: &Vec<char>, at: usize, text: &str) -> (r: bool)
    requires
        at <= chars.len(),
    ensures
        r == (at + text@.len() <= chars@.len() && chars@.subrange(at as int, at + text@.len())
            == text@),
{
    let t = chars_of(text);
    let total: usize = chars.len();
    if t.len() > total - at {
        return false;
    }
    let mut i: usize = 0;
    while i < t.len()
        invariant
            i <= t@.len(),
            t@ == text@,
            at + t@.len() <= total == chars@.len(),
            forall|j: int| 0 <= j < i ==> chars@[at + j] == #[trigger] t@[j],
        decreases t@.len() - i,
    {
        if chars[at + i] != t[i] {
            assert(chars@.subrange(at as int, at + t@.len())[i as int] != t@[i as int]);
            return false;
        }
        i = i + 1;
    }
    assert(chars@.subrange(at as int, at + t@.len()) =~= t@);
    true
}

/// True if `path` names the `default.xbe` at the root, in any case.
pub fn is_root_default_xbe(path: &str) -> (r: bool)
    ensures
        r == root_default_xbe(path@),
{
    let chars = chars_of(path);
    let from: usize = first_kept(&chars);
    let low = lower_chars(path);
    proof {
        reveal_strlit("default.xbe");
        assert(low@.skip(from as int) =~= lower(trimmed(path@)));
        if low@.len() - from == 11 {
            assert(low@.subrange(from as int, from + 11) =~= low@.skip(from as int));
        }
    }
    low.len() - from == 11 && stands_at(&low, from, "default.xbe")
}

/// True if `path` names a file of the system update.
pub fn is_system_update(path: &str) -> (r: bool)
    ensures
        r == in_system_update(path@),
{
    let chars = chars_of(path);
    let from: usize = first_kept(&chars);
    let low = lower_chars(path);
    proof {
        reveal_strlit("$systemupdate");
        if from + 13 <= low@.len() {
            assert(low@.subrange(from as int, from + 13) =~= lower(trimmed(path@).take(13)));
        }
    }
    stands_at(&low, from, "$systemupdate")
}

/// Which of the first `n` files are streamed, in order.
pub open spec fn kept(paths: Seq<Seq<char>>, skip_system_update: bool, n: int) -> Seq<int>
    decreases n,
{
    if n <= 0 {
        Seq::empty()
    } else if skip_system_update && in_system_update(paths[n - 1]) {
        kept(paths, skip_system_update, n - 1)
    } else {
        kept(paths, skip_system_update, n - 1).push(n - 1)
    }
}

/// Which files are streamed are numbers of files.
pub proof fn lemma_kept_range(paths: Seq<Seq<char>>, skip: bool, n: int)
    ensures
        forall|k: int|
            0 <= k < kept(paths, skip, n).len() ==> 0 <= #[trigger] kept(paths, skip, n)[k] < n,
    decreases n,
{
    if n > 0 {
        lemma_kept_range(paths, skip, n - 1);
        let before = kept(paths, skip, n - 1);
        assert forall|k: int| 0 <= k < kept(paths, skip, n).len() implies 0
            <= #[trigger] kept(paths, skip, n)[k] < n by {
            assert(k < before.len() ==> 0 <= before[k] < n - 1);
        }
    }
}

/// File `i` is streamed.
pub open spec fn goes_out(paths: Seq<Seq<char>>, skip_system_update: bool, i: int) -> bool {
    !(skip_system_update && in_system_update(paths[i]))
}

/// Every file is streamed that the system update does not hold, and no other; in their order,
/// each once.
pub proof fn kept_files_are_the_others(paths: Seq<Seq<char>>, skip: bool, n: int)
    requires
        0 <= n <= paths.len(),
    ensures
        forall|i: int|
            0 <= i < n ==> kept(paths, skip, n).contains(i) == #[trigger] goes_out(paths, skip, i),
        forall|a: int, b: int|
            0 <= a < b < kept(paths, skip, n).len() ==> #[trigger] kept(paths, skip, n)[a]
                < #[trigger] kept(paths, skip, n)[b],
    decreases n,
{
    if n > 0 {
        kept_files_are_the_others(paths, skip, n - 1);
        lemma_kept_range(paths, skip, n - 1);
        let before = kept(paths, skip, n - 1);
        let now = kept(paths, skip, n);
        assert forall|i: int| 0 <= i < n implies now.contains(i) == #[trigger] goes_out(
            paths,
            skip,
            i,
        ) by {
            if now.len() > before.len() {
                assert(now[before.len() as int] == n - 1);
                if before.contains(i) {
                    let k = choose|k: int| 0 <= k < before.len() && before[k] == i;
                    assert(now[k] == i);
                }
                if now.contains(i) && i < n - 1 {
                    let k = choose|k: int| 0 <= k < now.len() && now[k] == i;
                    assert(before[k] == i);
                }
            }
        }
    }
}

/// How the executable at the root is changed on the way out.
pub struct XbePatchOptions {
    pub allowed_media_patch: bool,
    /// The new title in UTF-16LE, if it is renamed.
    pub rename_title: Option<Vec<u8>>,
}

/// The patch to make, if any: the options ask for one as soon as one of them is set.
pub fn xbe_patch_for(allowed_media_patch: bool, rename_title: Option<Vec<u8>>) -> (r: Option<
    XbePatchOptions,
>)
    ensures
        r is Some <==> allowed_media_patch || rename_title is Some,
        r matches Some(o) ==> o.allowed_media_patch == allowed_media_patch && o.rename_title
            == rename_title,
{
    if allowed_media_patch || rename_title.is_some() {
        Some(XbePatchOptions { allowed_media_patch, rename_title })
    } else {
        None
    }
}

/// A file to stream.
pub struct StreamFile {
    pub path: String,
    pub size: u64,
    /// The file's place in the source.
    pub fs_index: usize,
}

/// What a step of a session came to.
pub enum ExtractedStep {
    /// Every file has gone out.
    Done,
    /// The next bytes of the current file.
    Chunk(Vec<u8>),
    /// The contents of the executable, which are to be patched and handed back.
    Patch(Vec<u8>),
}

/// Why a file cannot be streamed.
#[derive(Clone, Copy, Debug, PartialEq, Eq, Structural)]
pub enum ExtractedError {
    /// The executable is too large to hold in memory.
    TooLarge,
    Read(ReadError),
}

impl ExtractedError {
    pub open spec fn text(&self) -> Seq<char> {
        match self {
            ExtractedError::TooLarge => "File size exceeds architecture limits"@,
            ExtractedError::Read(_) => "extracted: read failed"@,
        }
    }

    pub fn message(&self) -> (r: &'static str)
        ensures
            r@ == self.text(),
    {
        match self {
            ExtractedError::TooLarge => "File size exceeds architecture limits",
            ExtractedError::Read(_) => "extracted: read failed",
        }
    }
}

/// The first file at the root that is a `default.xbe`.
pub open spec fn is_xbe_index(files: Seq<StreamFile>, r: Option<usize>) -> bool {
    match r {
        Some(k) => {
            &&& k < files.len()
            &&& root_default_xbe(files[k as int].path@)
            &&& forall|j: int| 0 <= j < k ==> !root_default_xbe((#[trigger] files[j]).path@)
        },
        None => forall|j: int|
            0 <= j < files.len() ==> !root_default_xbe((#[trigger] files[j]).path@),
    }
}

/// Session `r` streams the files of a source with these paths and contents, without those of the
/// system update if they are left out, and knows the executable among them.
pub open spec fn streams_files<F: FileSource>(
    r: ExtractedSession<F>,
    paths: Seq<Seq<char>>,
    contents: Seq<Seq<u8>>,
    skip_system_update: bool,
) -> bool {
    let all = kept(paths, skip_system_update, paths.len() as int);
    &&& r.count() == all.len()
    &&& forall|k: int|
        #![trigger r.path(k)]
        #![trigger r.file(k)]
        0 <= k < r.count() ==> r.path(k) == paths[all[k]] && r.file(k) == contents[all[k]]
    &&& match r.executable() {
        Some(k) => k < r.count() && root_default_xbe(r.path(k as int)) && forall|j: int|
            0 <= j < k ==> !root_default_xbe(#[trigger] r.path(j)),
        None => forall|j: int| 0 <= j < r.count() ==> !root_default_xbe(#[trigger] r.path(j)),
    }
}

/// The files of a source on their way out.
pub struct ExtractedSession<F: FileSource> {
    fs: F,
    files: Vec<StreamFile>,
    current_index: usize,
    last_returned_name: Option<String>,
    current_offset: u64,
    xbe_patch: Option<XbePatchOptions>,
    xbe_index: Option<usize>,
    patched: Option<Vec<u8>>,
}

/// What a call for the next piece of the output makes of session `a`: session `b` and the
/// result `r`.
pub open spec fn chunk_step<F: FileSource>(
    a: ExtractedSession<F>,
    b: ExtractedSession<F>,
    max_bytes: usize,
    r: Result<ExtractedStep, ExtractedError>,
) -> bool {
    &&& b.wf()
    &&& b.same_files(&a)
    &&& match r {
        Ok(ExtractedStep::Done) => a.index() >= a.count() && b == a,
        Ok(ExtractedStep::Patch(v)) => {
            &&& a.index() < a.count()
            &&& a.awaits_patch()
            &&& v@ == a.file(a.index())
            &&& b.index() == a.index()
            &&& b.offset() == a.offset()
            &&& b.awaits_patch()
            &&& b.entry_name() == a.entry_name()
        },
        Ok(ExtractedStep::Chunk(v)) => {
            let start = a.offset();
            let whole = a.current();
            let end = if max_bytes < whole.len() - start {
                start + max_bytes
            } else {
                whole.len() as int
            };
            &&& a.index() < a.count()
            &&& !a.awaits_patch()
            &&& start <= end <= whole.len()
            &&& v@ == whole.subrange(start, end)
            &&& b.entry_name() == Some(a.path(a.index()))
            &&& end < whole.len() ==> b.index() == a.index()
                && b.offset() == end && b.current() == whole
                && !b.awaits_patch()
            &&& end == whole.len() ==> b.index() == a.index() + 1
                && b.offset() == 0
            &&& end == whole.len() && b.index() < b.count()
                ==> b.current() == b.file(b.index())
                && b.awaits_patch() == (b.patching()
                && b.executable() == Some(b.index() as usize))
        },
        Err(e) => {
            &&& a.index() < a.count()
            &&& !a.reliable() || (e == ExtractedError::TooLarge && a.awaits_patch() && a.file(
                a.index(),
            ).len() > usize::MAX)
            &&& b.index() == a.index()
            &&& b.offset() == a.offset()
            &&& b.awaits_patch() == a.awaits_patch()
            &&& b.current() == a.current()
            &&& b.entry_name() == (if a.awaits_patch() {
                a.entry_name()
            } else {
                Some(a.path(a.index()))
            })
        },
    }
}

/// What handing over the patched executable makes of session `a`: session `b`.
pub open spec fn patch_step<F: FileSource>(
    a: ExtractedSession<F>,
    b: ExtractedSession<F>,
    patched: Seq<u8>,
) -> bool {
    &&& b.wf()
    &&& b.same_files(&a)
    &&& b.index() == a.index()
    &&& b.offset() == 0
    &&& b.current() == patched
    &&& !b.awaits_patch()
    &&& b.entry_name() == Some(a.path(a.index()))
}

impl<F: FileSource> ExtractedSession<F> {
    pub closed spec fn wf(&self) -> bool {
        &&& self.fs.valid()
        &&& self.fs.paths().len() == self.fs.contents().len()
        &&& self.current_index <= self.files@.len()
        &&& forall|k: int|
            0 <= k < self.files@.len() ==> (#[trigger] self.files@[k]).fs_index
                < self.fs.contents().len() && self.files@[k].path@
                == self.fs.paths()[self.files@[k].fs_index as int] && self.files@[k].size
                == self.fs.contents()[self.files@[k].fs_index as int].len()
        &&& is_xbe_index(self.files@, self.xbe_index)
        &&& self.patched is Some ==> self.wants_patch()
        &&& self.wants_patch() && self.patched is None ==> self.current_offset == 0
        &&& self.current_index == self.files@.len() ==> self.current_offset == 0
        &&& self.current_index < self.files@.len() ==> self.current_offset <= self.current().len()
    }

    /// The current file is the executable to patch.
    closed spec fn wants_patch(&self) -> bool {
        self.xbe_patch is Some && self.xbe_index == Some(self.current_index)
    }

    /// What the current file is streamed as.
    pub closed spec fn current(&self) -> Seq<u8> {
        match self.patched {
            Some(p) => p@,
            None => self.file(self.index()),
        }
    }

    /// How many files go out.
    pub closed spec fn count(&self) -> int {
        self.files@.len() as int
    }

    /// The path of file `k`.
    pub closed spec fn path(&self, k: int) -> Seq<char> {
        self.files@[k].path@
    }

    /// The contents of file `k` in the source.
    pub closed spec fn file(&self, k: int) -> Seq<u8> {
        self.fs.contents()[self.files@[k].fs_index as int]
    }

    /// The file that the next chunk is of.
    pub closed spec fn index(&self) -> int {
        self.current_index as int
    }

    /// How much of that file has gone out.
    pub closed spec fn offset(&self) -> int {
        self.current_offset as int
    }

    /// The current file is the executable, and its patched bytes have not been handed over.
    pub closed spec fn awaits_patch(&self) -> bool {
        self.wants_patch() && self.patched is None
    }

    /// The executable is to be patched.
    pub closed spec fn patching(&self) -> bool {
        self.xbe_patch is Some
    }

    /// How the executable is to be patched.
    pub closed spec fn patch(&self) -> Option<XbePatchOptions> {
        self.xbe_patch
    }

    /// Which file the executable is.
    pub closed spec fn executable(&self) -> Option<usize> {
        self.xbe_index
    }

    pub closed spec fn reliable(&self) -> bool {
        self.fs.reliable()
    }

    /// The name of the file that the last chunk was of.
    pub closed spec fn entry_name(&self) -> Option<Seq<char>> {
        match self.last_returned_name {
            Some(s) => Some(s@),
            None => None,
        }
    }

    /// What stays as it is while the files go out.
    pub open spec fn same_files(&self, other: &Self) -> bool {
        &&& self.count() == other.count()
        &&& self.patching() == other.patching()
        &&& self.patch() == other.patch()
        &&& self.executable() == other.executable()
        &&& self.reliable() == other.reliable()
        &&& forall|k: int| #[trigger] self.path(k) == other.path(k)
        &&& forall|k: int| #[trigger] self.file(k) == other.file(k)
    }

    /// Opens a session over the files of `fs`, without those of the system update if they are to
    /// be left out.
    pub fn open(fs: F, skip_system_update: bool, xbe_patch: Option<XbePatchOptions>) -> (r:
        ExtractedSession<F>)
        requires
            fs.valid(),
        ensures
            r.wf(),
            streams_files(r, fs.paths(), fs.contents(), skip_system_update),
            r.patch() == xbe_patch,
            r.patching() == xbe_patch is Some,
            r.reliable() == fs.reliable(),
            r.index() == 0,
            r.offset() == 0,
            r.entry_name() is None,
            r.awaits_patch() == (xbe_patch is Some && r.executable() == Some(0usize)),
            r.count() > 0 ==> r.current() == r.file(0),
    {
        let entries = fs.file_entries();
        let mut files: Vec<StreamFile> = Vec::new();
        let ghost paths = fs.paths();
        let mut i: usize = 0;
        while i < entries.len()
            invariant
                i <= entries@.len(),
                paths == fs.paths(),
                entries@.len() == paths.len() == fs.contents().len(),
                forall|j: int|
                    0 <= j < entries@.len() ==> (#[trigger] entries@[j]).0@ == paths[j]
                        && entries@[j].1 == fs.contents()[j].len(),
                files@.len() == kept(paths, skip_system_update, i as int).len(),
                forall|k: int|
                    0 <= k < files@.len() ==> (#[trigger] files@[k]).fs_index == kept(
                        paths,
                        skip_system_update,
                        i as int,
                    )[k] && files@[k].fs_index < i && files@[k].path@ == paths[files@[k].fs_index as int]
                        && files@[k].size == fs.contents()[files@[k].fs_index as int].len(),
            decreases entries@.len() - i,
        {
            let path = &entries[i].0;
            if !(skip_system_update && is_system_update(path.as_str())) {
                files.push(
                    StreamFile { path: path.clone(), size: entries[i].1, fs_index: i },
                );
            }
            i = i + 1;
        }
        let mut xbe_index: Option<usize> = None;
        let mut k: usize = 0;
        while k < files.len() && xbe_index.is_none()
            invariant
                k <= files@.len(),
                xbe_index is None ==> forall|j: int|
                    0 <= j < k ==> !root_default_xbe((#[trigger] files@[j]).path@),
                xbe_index is Some ==> is_xbe_index(files@, xbe_index),
            decreases files@.len() - k,
        {
            if is_root_default_xbe(files[k].path.as_str()) {
                xbe_index = Some(k);
            }
            k = k + 1;
        }
        ExtractedSession {
            fs,
            files,
            current_index: 0,
            last_returned_name: None,
            current_offset: 0,
            xbe_patch,
            xbe_index,
            patched: None,
        }
    }

    /// The next step: at most `max_bytes` bytes of the current file, or the whole of the
    /// executable where that is to be patched first. An empty file gives one empty chunk.
    pub fn next_chunk(&mut self, max_bytes: usize) -> (r: Result<ExtractedStep, ExtractedError>)
        requires
            old(self).wf(),
        ensures
            chunk_step(*old(self), *final(self), max_bytes, r),
    {
        if self.current_index >= self.files.len() {
            return Ok(ExtractedStep::Done);
        }
        let idx: usize = self.current_index;
        let size: u64 = self.files[idx].size;
        let fs_index: usize = self.files[idx].fs_index;
        let patch_this = self.xbe_patch.is_some() && match self.xbe_index {
            Some(k) => k == idx,
            None => false,
        };
        if patch_this && self.patched.is_none() {
            if size > usize::MAX as u64 {
                return Err(ExtractedError::TooLarge);
            }
            return match self.fs.read_file_range(fs_index, 0, size as usize) {
                Ok(b) => {
                    assert(b@ =~= old(self).file(old(self).index()));
                    Ok(ExtractedStep::Patch(b))
                },
                Err(e) => Err(ExtractedError::Read(e)),
            };
        }
        let start: u64 = self.current_offset;
        let whole_len: u64 = match &self.patched {
            Some(p) => p.len() as u64,
            None => size,
        };
        let left: u64 = whole_len - start;
        let n: usize = if (max_bytes as u64) < left {
            max_bytes
        } else {
            left as usize
        };
        let chunk = match &self.patched {
            Some(p) => copy_range(p.as_slice(), start as usize, start as usize + n),
            None => {
                self.last_returned_name = Some(self.files[idx].path.clone());
                match self.fs.read_file_range(fs_index, start, n) {
                    Ok(b) => b,
                    Err(e) => {
                        return Err(ExtractedError::Read(e));
                    },
                }
            },
        };
        self.last_returned_name = Some(self.files[idx].path.clone());
        if n as u64 == left {
            self.patched = None;
            self.current_index = idx + 1;
            self.current_offset = 0;
        } else {
            self.current_offset = start + n as u64;
        }
        Ok(ExtractedStep::Chunk(chunk))
    }

    /// Takes the patched executable, which goes out in place of the file.
    pub fn put_patched(&mut self, bytes: Vec<u8>)
        requires
            old(self).wf(),
            old(self).awaits_patch(),
        ensures
            patch_step(*old(self), *final(self), bytes@),
    {
        self.last_returned_name = Some(self.files[self.current_index].path.clone());
        self.patched = Some(bytes);
    }

    pub fn is_done(&self) -> (r: bool)
        ensures
            r == (self.index() >= self.count()),
    {
        self.current_index >= self.files.len()
    }

    /// How the executable is to be patched.
    pub fn patch_options(&self) -> (r: Option<&XbePatchOptions>)
        ensures
            match r {
                Some(p) => self.patch() == Some(*p),
                None => self.patch() is None,
            },
    {
        match &self.xbe_patch {
            Some(p) => Some(p),
            None => None,
        }
    }

    /// How many files go out.
    pub fn total_units(&self) -> (r: u64)
        ensures
            r == self.count(),
    {
        self.files.len() as u64
    }

    pub fn current_entry_name(&self) -> (r: Option<&str>)
        ensures
            match r {
                Some(s) => self.entry_name() == Some(s@),
                None => self.entry_name() is None,
            },
    {
        match &self.last_returned_name {
            Some(s) => Some(s.as_str()),
            None => None,
        }
    }

    /// Path and size of every file that goes out.
    pub fn output_manifest(&self) -> (r: Vec<(String, u64)>)
        requires
            self.wf(),
        ensures
            r@.len() == self.count(),
            forall|k: int|
                0 <= k < r@.len() ==> (#[trigger] r@[k]).0@ == self.path(k) && r@[k].1
                    == self.file(k).len(),
    {
        let mut r: Vec<(String, u64)> = Vec::new();
        let mut k: usize = 0;
        while k < self.files.len()
            invariant
                k <= self.files@.len(),
                self.wf(),
                r@.len() == k,
                forall|j: int|
                    0 <= j < k ==> (#[trigger] r@[j]).0@ == self.path(j) && r@[j].1 == self.file(
                        j,
                    ).len(),
            decreases self.files@.len() - k,
        {
            assert(self.files@[k as int].size == self.file(k as int).len());
            r.push((self.files[k].path.clone(), self.files[k].size));
            k = k + 1;
        }
        r
    }
}

/// The chunks of a file, end to end, are the file: what had gone out of it and the next chunk are
/// what has gone out of it then.
pub proof fn chunks_make_up_the_file(file: Seq<u8>, start: int, end: int)
    requires
        0 <= start <= end <= file.len(),
    ensures
        file.take(start) + file.subrange(start, end) == file.take(end),
        end == file.len() ==> file.take(end) == file,
{
    assert(file.take(start) + file.subrange(start, end) =~= file.take(end));
    assert(file.take(file.len() as int) =~= file);
}

/// Session `a` hands out the piece `chunk` and becomes `b`.
pub open spec fn hands_out<F: FileSource>(
    a: ExtractedSession<F>,
    b: ExtractedSession<F>,
    max_bytes: usize,
    chunk: Vec<u8>,
) -> bool {
    chunk_step(a, b, max_bytes, Ok::<ExtractedStep, ExtractedError>(ExtractedStep::Chunk(chunk)))
}

/// A session that patches nothing goes through `states` from its beginning and hands out
/// `chunks`, one between each two of them; then it has no more.
pub open spec fn is_whole_run<F: FileSource>(
    states: Seq<ExtractedSession<F>>,
    sizes: Seq<usize>,
    chunks: Seq<Vec<u8>>,
    end: ExtractedSession<F>,
    last_size: usize,
) -> bool {
    &&& states.len() == chunks.len() + 1
    &&& sizes.len() == chunks.len()
    &&& states[0].wf()
    &&& !states[0].patching()
    &&& states[0].index() == 0
    &&& states[0].offset() == 0
    &&& forall|i: int|
        0 <= i < chunks.len() ==> #[trigger] hands_out(
            states[i],
            states[i + 1],
            sizes[i],
            chunks[i],
        )
    &&& chunk_step(
        states.last(),
        end,
        last_size,
        Ok::<ExtractedStep, ExtractedError>(ExtractedStep::Done),
    )
}

/// The file that each piece belongs to.
pub open spec fn piece_files<F: FileSource>(states: Seq<ExtractedSession<F>>) -> Seq<int> {
    Seq::new((states.len() - 1) as nat, |i: int| states[i].index())
}

/// Some piece belongs to file `j`.
pub open spec fn has_piece<F: FileSource>(states: Seq<ExtractedSession<F>>, j: int) -> bool {
    exists|i: int| 0 <= i < states.len() - 1 && (#[trigger] states[i]).index() == j
}

proof fn lemma_run<F: FileSource>(
    states: Seq<ExtractedSession<F>>,
    sizes: Seq<usize>,
    chunks: Seq<Vec<u8>>,
    end: ExtractedSession<F>,
    last_size: usize,
    k: int,
)
    requires
        is_whole_run(states, sizes, chunks, end, last_size),
        0 <= k <= chunks.len(),
    ensures
        states[k].wf(),
        !states[k].patching(),
        states[k].same_files(&states[0]),
        states[k].count() == states[0].count(),
        states[k].current() == states[0].file(states[k].index()),
        forall|j: int| #[trigger] states[k].file(j) == states[0].file(j),
        forall|j: int| #[trigger] states[k].path(j) == states[0].path(j),
    decreases k,
{
    if k > 0 {
        lemma_run(states, sizes, chunks, end, last_size, k - 1);
        assert(hands_out(states[k - 1], states[k - 1 + 1], sizes[k - 1], chunks[k - 1]));
    }
}

/// The pieces that a session hands out from beginning to end are its files: those of a file add
/// up to it, whatever sizes were asked for, and the files come in the order of the manifest. No
/// piece is longer than was asked for, each is announced under its file's path, and an empty file
/// gives one empty piece.
pub proof fn whole_run_is_the_files<F: FileSource>(
    states: Seq<ExtractedSession<F>>,
    sizes: Seq<usize>,
    chunks: Seq<Vec<u8>>,
    end: ExtractedSession<F>,
    last_size: usize,
)
    requires
        is_whole_run(states, sizes, chunks, end, last_size),
    ensures
        end.index() >= end.count(),
        forall|j: int|
            0 <= j < states[0].count() ==> pieces_of(j, piece_files(states), chunks)
                == #[trigger] states[0].file(j),
        forall|j: int| 0 <= j < states[0].count() ==> #[trigger] has_piece(states, j),
        forall|i: int|
            0 <= i < chunks.len() ==> {
                let file = states[0].file((#[trigger] states[i]).index());
                &&& states[i].index() < states[0].count()
                &&& states[i + 1].entry_name() == Some(states[0].path(states[i].index()))
                &&& chunks[i]@.len() <= sizes[i]
                &&& file.len() == 0 ==> states[i + 1].index() == states[i].index() + 1
            },
        forall|a: int, b: int|
            0 <= a <= b < chunks.len() ==> (#[trigger] states[a]).index() <= (
            #[trigger] states[b]).index(),
{
    let n = chunks.len() as int;
    let s = states[0];
    let count = s.count() as nat;
    lemma_run(states, sizes, chunks, end, last_size, n);
    assert(states[n] == states.last());
    let entry_keys = Seq::new(count, |j: int| j);
    let images = Seq::new(count, |j: int| s.file(j));
    let at = Seq::new(states.len(), |i: int| states[i].index());
    let written = Seq::new(states.len(), |i: int| states[i].current().take(states[i].offset()));
    let keys = piece_files(states);
    assert forall|i: int| 0 <= i < n implies #[trigger] goes_on(
        entry_keys,
        images,
        at,
        written,
        keys,
        chunks,
        i,
    ) by {
        lemma_run(states, sizes, chunks, end, last_size, i);
        lemma_run(states, sizes, chunks, end, last_size, i + 1);
        assert(hands_out(states[i], states[i + 1], sizes[i], chunks[i]));
        let whole = states[i].current();
        assert(0 <= states[i].offset() <= whole.len());
        assert(0 <= states[i].index());
        if at[i + 1] == at[i] {
            assert(written[i + 1] =~= written[i] + chunks[i]@);
        } else {
            assert(written[i] + chunks[i]@ =~= whole);
        }
    }
    assert(go_through(entry_keys, images, at, written, keys, chunks));
    assert forall|j: int| 0 <= j < s.count() implies pieces_of(j, keys, chunks)
        == #[trigger] s.file(j) by {
        pieces_add_up(entry_keys, images, at, written, keys, chunks, j);
        assert(entry_keys[j] == j);
    }
    assert forall|j: int| 0 <= j < s.count() implies #[trigger] has_piece(states, j) by {
        let i = each_entry_has_a_piece(entry_keys, images, at, written, keys, chunks, n, j);
        assert(states[i].index() == j);
    }
    assert forall|i: int| 0 <= i < n implies ({
        let file = s.file((#[trigger] states[i]).index());
        &&& states[i].index() < s.count()
        &&& states[i + 1].entry_name() == Some(s.path(states[i].index()))
        &&& chunks[i]@.len() <= sizes[i]
        &&& file.len() == 0 ==> states[i + 1].index() == states[i].index() + 1
    }) by {
        lemma_run(states, sizes, chunks, end, last_size, i);
        assert(hands_out(states[i], states[i + 1], sizes[i], chunks[i]));
    }
    assert forall|a: int, b: int| 0 <= a <= b < n implies (#[trigger] states[a]).index() <= (
    #[trigger] states[b]).index() by {
        pieces_are_in_order(entry_keys, images, at, written, keys, chunks, a, b);
    }
}

/// The path that each piece is announced under.
pub open spec fn piece_names<F: FileSource>(states: Seq<ExtractedSession<F>>) -> Seq<
    Option<Seq<char>>,
> {
    Seq::new((states.len() - 1) as nat, |i: int| states[i + 1].entry_name())
}

/// Where no two files have the same path, the pieces that are announced under a path add up to
/// the file.
pub proof fn whole_run_is_the_named_files<F: FileSource>(
    states: Seq<ExtractedSession<F>>,
    sizes: Seq<usize>,
    chunks: Seq<Vec<u8>>,
    end: ExtractedSession<F>,
    last_size: usize,
    j: int,
)
    requires
        is_whole_run(states, sizes, chunks, end, last_size),
        forall|a: int, b: int|
            0 <= a < b < states[0].count() ==> #[trigger] states[0].path(a)
                != #[trigger] states[0].path(b),
        0 <= j < states[0].count(),
    ensures
        pieces_of(Some(states[0].path(j)), piece_names(states), chunks) == states[0].file(j),
{
    let s = states[0];
    let name = Some(s.path(j));
    whole_run_is_the_files(states, sizes, chunks, end, last_size);
    assert forall|i: int| 0 <= i < chunks.len() implies (#[trigger] piece_files(states)[i] == j
        <==> piece_names(states)[i] == name) by {
        let k = states[i].index();
        assert(states[i + 1].entry_name() == Some(s.path(k)));
        assert(0 <= k < s.count());
        if k < j {
            assert(s.path(k) != s.path(j));
        } else if j < k {
            assert(s.path(j) != s.path(k));
        }
    }
    same_marks_same_pieces(j, piece_files(states), name, piece_names(states), chunks);
}

/// Session `a` gets the patched executable if it waits for it, and becomes `ready`: it has handed
/// out the executable and become `asked`, which `patched` was handed over to.
pub open spec fn gets_ready<F: FileSource>(
    a: ExtractedSession<F>,
    asked: ExtractedSession<F>,
    executable: Vec<u8>,
    ready: ExtractedSession<F>,
    max_bytes: usize,
    patched: Seq<u8>,
) -> bool {
    if a.awaits_patch() {
        &&& chunk_step(
            a,
            asked,
            max_bytes,
            Ok::<ExtractedStep, ExtractedError>(ExtractedStep::Patch(executable)),
        )
        &&& patch_step(asked, ready, patched)
    } else {
        ready == a
    }
}

/// What goes out for file `j`: the patched executable in place of the one that is to be patched,
/// and every other file as it is.
pub open spec fn goes_out_as<F: FileSource>(
    s: ExtractedSession<F>,
    patched: Seq<u8>,
    j: int,
) -> Seq<u8> {
    if s.patching() && s.executable() == Some(j as usize) {
        patched
    } else {
        s.file(j)
    }
}

/// A session goes through `states` from its beginning and hands out `chunks`, one between each
/// two of them, with the executable patched on the way if that is asked for; then it has no more.
pub open spec fn is_patched_run<F: FileSource>(
    states: Seq<ExtractedSession<F>>,
    asked: Seq<ExtractedSession<F>>,
    executables: Seq<Vec<u8>>,
    ready: Seq<ExtractedSession<F>>,
    sizes: Seq<usize>,
    chunks: Seq<Vec<u8>>,
    patched: Seq<u8>,
    end: ExtractedSession<F>,
    last_size: usize,
) -> bool {
    &&& states.len() == chunks.len() + 1
    &&& states[0].wf()
    &&& states[0].index() == 0
    &&& states[0].offset() == 0
    &&& states[0].count() > 0 ==> states[0].awaits_patch() == (states[0].patching()
        && states[0].executable() == Some(0usize))
    &&& states[0].count() > 0 ==> states[0].current() == states[0].file(0)
    &&& forall|i: int|
        0 <= i < chunks.len() ==> gets_ready(
            states[i],
            asked[i],
            executables[i],
            #[trigger] ready[i],
            sizes[i],
            patched,
        ) && hands_out(ready[i], states[i + 1], sizes[i], chunks[i])
    &&& chunk_step(
        states.last(),
        end,
        last_size,
        Ok::<ExtractedStep, ExtractedError>(ExtractedStep::Done),
    )
}

proof fn lemma_patched_run<F: FileSource>(
    states: Seq<ExtractedSession<F>>,
    asked: Seq<ExtractedSession<F>>,
    executables: Seq<Vec<u8>>,
    ready: Seq<ExtractedSession<F>>,
    sizes: Seq<usize>,
    chunks: Seq<Vec<u8>>,
    patched: Seq<u8>,
    end: ExtractedSession<F>,
    last_size: usize,
    k: int,
)
    requires
        is_patched_run(
            states,
            asked,
            executables,
            ready,
            sizes,
            chunks,
            patched,
            end,
            last_size,
        ),
        0 <= k <= chunks.len(),
    ensures
        states[k].wf(),
        states[k].same_files(&states[0]),
        states[k].awaits_patch() ==> states[k].patching() && states[k].executable() == Some(
            states[k].index() as usize,
        ) && states[k].offset() == 0,
        states[k].index() < states[k].count() && !states[k].awaits_patch() ==> states[k].current()
            == goes_out_as(states[0], patched, states[k].index()),
    decreases k,
{
    if k > 0 {
        let i = k - 1;
        lemma_patched_run(
            states,
            asked,
            executables,
            ready,
            sizes,
            chunks,
            patched,
            end,
            last_size,
            i,
        );
        assert(gets_ready(states[i], asked[i], executables[i], ready[i], sizes[i], patched));
        assert(hands_out(ready[i], states[i + 1], sizes[i], chunks[i]));
        assert(ready[i].current() == goes_out_as(states[0], patched, states[i].index()));
    }
}

/// Where the executable is patched on its way out, the pieces of each file still add up: those of
/// the executable to what was handed over for it, those of any other file to the file.
pub proof fn patched_run_is_the_files<F: FileSource>(
    states: Seq<ExtractedSession<F>>,
    asked: Seq<ExtractedSession<F>>,
    executables: Seq<Vec<u8>>,
    ready: Seq<ExtractedSession<F>>,
    sizes: Seq<usize>,
    chunks: Seq<Vec<u8>>,
    patched: Seq<u8>,
    end: ExtractedSession<F>,
    last_size: usize,
    j: int,
)
    requires
        is_patched_run(
            states,
            asked,
            executables,
            ready,
            sizes,
            chunks,
            patched,
            end,
            last_size,
        ),
        0 <= j < states[0].count(),
    ensures
        pieces_of(j, piece_files(states), chunks) == goes_out_as(states[0], patched, j),
{
    let n = chunks.len() as int;
    let s = states[0];
    let count = s.count() as nat;
    let entry_keys = Seq::new(count, |j: int| j);
    let images = Seq::new(count, |j: int| goes_out_as(s, patched, j));
    let at = Seq::new(states.len(), |i: int| states[i].index());
    let written = Seq::new(
        states.len(),
        |i: int|
            if states[i].awaits_patch() {
                Seq::empty()
            } else {
                states[i].current().take(states[i].offset())
            },
    );
    let keys = piece_files(states);
    lemma_patched_run(
        states,
        asked,
        executables,
        ready,
        sizes,
        chunks,
        patched,
        end,
        last_size,
        n,
    );
    assert(states[n] == states.last());
    assert forall|i: int| 0 <= i < n implies #[trigger] goes_on(
        entry_keys,
        images,
        at,
        written,
        keys,
        chunks,
        i,
    ) by {
        lemma_patched_run(
            states,
            asked,
            executables,
            ready,
            sizes,
            chunks,
            patched,
            end,
            last_size,
            i,
        );
        assert(gets_ready(states[i], asked[i], executables[i], ready[i], sizes[i], patched));
        assert(hands_out(ready[i], states[i + 1], sizes[i], chunks[i]));
        let whole = ready[i].current();
        assert(whole == goes_out_as(s, patched, states[i].index()));
        assert(written[i] =~= whole.take(ready[i].offset()));
        if at[i + 1] == at[i] {
            assert(written[i + 1] =~= written[i] + chunks[i]@);
        } else {
            assert(written[i] + chunks[i]@ =~= whole);
        }
    }
    assert(go_through(entry_keys, images, at, written, keys, chunks));
    pieces_add_up(entry_keys, images, at, written, keys, chunks, j);
    assert(entry_keys[j] == j);
}

/// What is dropped in front of a path are its slashes of either kind, all of them and nothing else.
pub proof fn leading_slashes_are_dropped(path: Seq<char>)
    ensures
        ({
            let n = path.len() - trimmed(path).len();
            &&& 0 <= n <= path.len()
            &&& path.skip(n) == trimmed(path)
            &&& forall|i: int| 0 <= i < n ==> path[i] == '/' || #[trigger] path[i] == '\\'
            &&& trimmed(path).len() > 0 ==> trimmed(path)[0] != '/' && trimmed(path)[0] != '\\'
        }),
    decreases path.len(),
{
    if path.len() > 0 && is_slash(path[0]) {
        let rest = path.drop_first();
        leading_slashes_are_dropped(rest);
        let n = path.len() - trimmed(path).len();
        assert(path.skip(n) =~= rest.skip(n - 1));
        assert forall|i: int| 0 <= i < n implies path[i] == '/' || #[trigger] path[i] == '\\' by {
            if i > 0 {
                assert(path[i] == rest[i - 1]);
            }
        }
    } else {
        assert(path.skip(0) =~= path);
    }
}

/// Two characters are the same but for the case of an ASCII letter.
pub open spec fn same_letter(a: char, b: char) -> bool {
    ||| a == b
    ||| 65 <= a as u32 <= 90 && b as u32 == a as u32 + 32
    ||| 65 <= b as u32 <= 90 && a as u32 == b as u32 + 32
}

/// A file belongs to the system update if its path, behind its leading slashes, begins with
/// `$SystemUpdate` in any case, and only then.
pub proof fn system_update_is_known_in_any_case(path: Seq<char>)
    ensures
        in_system_update(path) <==> trimmed(path).len() >= 13 && forall|i: int|
            0 <= i < 13 ==> same_letter(#[trigger] trimmed(path)[i], "$SystemUpdate"@[i]),
{
    reveal_strlit("$SystemUpdate");
    reveal_strlit("$systemupdate");
    let t = trimmed(path);
    let name = "$systemupdate"@;
    let mixed = "$SystemUpdate"@;
    assert(name.len() == 13 && mixed.len() == 13);
    if t.len() >= 13 {
        let low = lower(t.take(13));
        assert forall|i: int| 0 <= i < 13 implies (low[i] == name[i]) == same_letter(
            #[trigger] t[i],
            mixed[i],
        ) by {
            lemma_same_letter(t[i], mixed[i]);
            assert(low[i] == crate::utils::text::ascii_lower(t[i]));
            lemma_update_letter(i);
        }
        if in_system_update(path) {
            assert forall|i: int| 0 <= i < 13 implies same_letter(#[trigger] t[i], mixed[i]) by {
                assert(low[i] == name[i]);
            }
        }
        if forall|i: int| 0 <= i < 13 ==> same_letter(#[trigger] t[i], mixed[i]) {
            assert forall|i: int| 0 <= i < 13 implies low[i] == name[i] by {
                assert(same_letter(t[i], mixed[i]));
            }
            assert(low =~= name);
        }
    }
}

proof fn lemma_same_letter(a: char, b: char)
    ensures
        same_letter(a, b) <==> crate::utils::text::ascii_lower(a)
            == crate::utils::text::ascii_lower(b),
{
    let x = a as u32;
    let y = b as u32;
    assert(a == b <==> x == y);
    assert('A' as u32 == 65 && 'Z' as u32 == 90);
    crate::utils::text::lemma_small_letter(a);
    crate::utils::text::lemma_small_letter(b);
}

proof fn lemma_update_letter(i: int)
    requires
        0 <= i < 13,
    ensures
        crate::utils::text::ascii_lower("$SystemUpdate"@[i]) == "$systemupdate"@[i],
{
    reveal_strlit("$SystemUpdate");
    reveal_strlit("$systemupdate");
    crate::utils::text::lemma_small_letter("$SystemUpdate"@[i]);
    assert("$SystemUpdate"@[i] as u32 == (if i == 1 || i == 7 {
        "$systemupdate"@[i] as u32 - 32
    } else {
        "$systemupdate"@[i] as int
    }));
}

/// A file is the executable if its path, behind its leading slashes, is `default.xbe` in any case,
/// and only then.
pub proof fn executable_is_known_in_any_case(path: Seq<char>)
    ensures
        root_default_xbe(path) <==> trimmed(path).len() == 11 && forall|i: int|
            0 <= i < 11 ==> same_letter(#[trigger] trimmed(path)[i], "default.xbe"@[i]),
{
    reveal_strlit("default.xbe");
    let t = trimmed(path);
    let name = "default.xbe"@;
    let low = lower(t);
    assert(name.len() == 11);
    if t.len() == 11 {
        assert forall|i: int| 0 <= i < 11 implies (low[i] == name[i]) == same_letter(
            #[trigger] t[i],
            name[i],
        ) by {
            lemma_same_letter(t[i], name[i]);
            crate::utils::text::lemma_small_letter(name[i]);
            assert(low[i] == crate::utils::text::ascii_lower(t[i]));
        }
        if root_default_xbe(path) {
            assert forall|i: int| 0 <= i < 11 implies same_letter(#[trigger] t[i], name[i]) by {
                assert(low[i] == name[i]);
            }
        }
        if forall|i: int| 0 <= i < 11 ==> same_letter(#[trigger] t[i], name[i]) {
            assert forall|i: int| 0 <= i < 11 implies low[i] == name[i] by {
                assert(same_letter(t[i], name[i]));
            }
            assert(low =~= name);
        }
    } else {
        assert(low.len() == t.len());
    }
}

/// Every file of a source is streamed as it is, in the order of the source, but for those of the
/// system update where they are left out; and nothing else is streamed.
pub proof fn every_other_file_is_streamed<F: FileSource>(
    s: ExtractedSession<F>,
    paths: Seq<Seq<char>>,
    contents: Seq<Seq<u8>>,
    skip: bool,
    i: int,
)
    requires
        streams_files(s, paths, contents, skip),
        0 <= i < paths.len(),
    ensures
        !(skip && in_system_update(paths[i])) ==> exists|k: int|
            0 <= k < s.count() && #[trigger] s.path(k) == paths[i] && s.file(k) == contents[i],
        skip ==> forall|k: int| 0 <= k < s.count() ==> !in_system_update(#[trigger] s.path(k)),
        !skip ==> s.count() == paths.len() && s.path(i) == paths[i] && s.file(i) == contents[i],
{
    let n = paths.len() as int;
    let all = kept(paths, skip, n);
    kept_files_are_the_others(paths, skip, n);
    lemma_kept_range(paths, skip, n);
    if !(skip && in_system_update(paths[i])) {
        assert(goes_out(paths, skip, i));
        let k = choose|k: int| 0 <= k < all.len() && all[k] == i;
        assert(s.path(k) == paths[i]);
    }
    assert forall|k: int| skip && 0 <= k < s.count() implies !in_system_update(
        #[trigger] s.path(k),
    ) by {
        assert(all.contains(all[k]));
        assert(goes_out(paths, skip, all[k]));
    }
    if !skip {
        lemma_all_kept(paths, n);
        assert(s.path(i) == paths[all[i]]);
    }
}

proof fn lemma_all_kept(paths: Seq<Seq<char>>, n: int)
    requires
        0 <= n,
    ensures
        kept(paths, false, n) == Seq::new(n as nat, |i: int| i),
    decreases n,
{
    if n > 0 {
        lemma_all_kept(paths, n - 1);
    }
    assert(kept(paths, false, n) =~= Seq::new(n as nat, |i: int| i));
}

/// The executable is the first of the streamed files whose path names it.
pub proof fn first_executable_is_patched<F: FileSource>(
    s: ExtractedSession<F>,
    paths: Seq<Seq<char>>,
    contents: Seq<Seq<u8>>,
    skip: bool,
    j: int,
)
    requires
        streams_files(s, paths, contents, skip),
        0 <= j < s.count(),
    ensures
        root_default_xbe(s.path(j)) ==> s.executable() is Some && s.executable()->0 <= j,
        s.executable() matches Some(k) ==> k < s.count() && root_default_xbe(s.path(k as int)),
{
}

/// A piece of a file is as long as was asked for, or ends with the file.
pub proof fn pieces_of_files_are_as_long_as_asked<F: FileSource>(
    a: ExtractedSession<F>,
    b: ExtractedSession<F>,
    max_bytes: usize,
    chunk: Vec<u8>,
)
    requires
        hands_out(a, b, max_bytes, chunk),
    ensures
        chunk@.len() <= max_bytes,
        chunk@.len() == max_bytes || a.offset() + chunk@.len() == a.current().len(),
{
}

} // verus!
