//! What is cut or zeroed of a disc image, by what its files use.
use crate::source::{scrubbed, ByteSource, Scrubbed, SECTOR_SIZE};
use std::collections::HashSet;
use vstd::prelude::*;
use vstd::std_specs::hash::*;

verus! {

/// How much of an image is kept by the formats that hold whole images.
#[derive(Clone, Copy, Debug, PartialEq, Eq, Structural)]
pub enum ScrubMode {
    /// A straight copy.
    Copy,
    /// What follows the last used byte is cut, and the unused sectors before it are zeroed. Xbox
    /// 360 images are only cut.
    Partial,
    /// The image was rebuilt: every sector of it goes out as it is.
    Full,
}

impl Default for ScrubMode {
    fn default() -> (r: ScrubMode)
        ensures
            r == ScrubMode::Full,
    {
        ScrubMode::Full
    }
}

/// The console an image was made for.
#[derive(Clone, Copy, Debug, PartialEq, Eq, Structural)]
pub enum Platform {
    Xbox,
    X360,
}

/// Which part of an image its files use.
pub struct ScrubInfo {
    /// Where the last used byte ends, counted from the start of the raw image.
    pub max_end: u64,
    /// The used sectors, counted from the root offset.
    pub used_sectors: HashSet<u64>,
    pub platform: Platform,
}

impl ScrubInfo {
    /// How many sectors there are from the root offset to the last used byte.
    pub open spec fn used_len(self, root_offset: int) -> int {
        (self.max_end - root_offset + 2047) / 2048
    }

    /// Sector `s` may be zeroed: no file uses it, and the image is no Xbox 360 image.
    pub open spec fn is_spare(self, s: u64) -> bool {
        self.platform != Platform::X360 && !self.used_sectors@.contains(s)
    }

    /// How many sectors there are from the root offset to the last used byte.
    pub fn trimmed_sectors(&self, root_offset: u64) -> (r: u64)
        requires
            root_offset <= self.max_end,
        ensures
            r == self.used_len(root_offset as int),
    {
        let len: u64 = self.max_end - root_offset;
        let whole: u64 = len / SECTOR_SIZE;
        if len % SECTOR_SIZE > 0 {
            whole + 1
        } else {
            whole
        }
    }

    /// The sectors before `sectors` that may be zeroed.
    pub fn spare_sectors(&self, sectors: u64) -> (r: HashSet<u64>)
        ensures
            forall|s: u64| #[trigger] r@.contains(s) <==> s < sectors && self.is_spare(s),
    {
        broadcast use group_hash_axioms;

        let mut spare: HashSet<u64> = HashSet::new();
        if self.platform == Platform::X360 {
            return spare;
        }
        let mut s: u64 = 0;
        while s < sectors
            invariant
                s <= sectors,
                self.platform != Platform::X360,
                forall|t: u64| #[trigger] spare@.contains(t) <==> t < s && self.is_spare(t),
            decreases sectors - s,
        {
            broadcast use group_hash_axioms;

            if !self.used_sectors.contains(&s) {
                spare.insert(s);
            }
            s = s + 1;
        }
        spare
    }
}

/// How many sectors go out of an image that has `sectors` of them from its root offset.
pub open spec fn scrubbed_sectors(
    mode: ScrubMode,
    sectors: int,
    root_offset: int,
    info: ScrubInfo,
) -> int {
    match mode {
        ScrubMode::Partial => info.used_len(root_offset),
        ScrubMode::Copy | ScrubMode::Full => sectors,
    }
}

/// `n` sectors go out of an image, and the sectors in `zero` are zeroed.
pub open spec fn is_scrub_plan(
    mode: ScrubMode,
    sectors: int,
    root_offset: int,
    info: ScrubInfo,
    n: u64,
    zero: Set<u64>,
) -> bool {
    &&& n == scrubbed_sectors(mode, sectors, root_offset, info)
    &&& forall|s: u64| #[trigger]
        zero.contains(s) <==> mode == ScrubMode::Partial && s < n && info.is_spare(s)
}

/// The sectors to write of an image, and those of them to zero.
pub fn plan_scrub(mode: ScrubMode, sectors: u64, root_offset: u64, info: &ScrubInfo) -> (r: (
    u64,
    HashSet<u64>,
))
    requires
        mode == ScrubMode::Partial ==> root_offset <= info.max_end,
    ensures
        is_scrub_plan(mode, sectors as int, root_offset as int, *info, r.0, r.1@),
{
    broadcast use group_hash_axioms;

    match mode {
        ScrubMode::Copy | ScrubMode::Full => (sectors, HashSet::new()),
        ScrubMode::Partial => {
            let n: u64 = info.trimmed_sectors(root_offset);
            (n, info.spare_sectors(n))
        },
    }
}

/// An image as `mode` has it written, with the number of its sectors that go out.
pub fn scrub_image<S: ByteSource>(
    image: S,
    mode: ScrubMode,
    root_offset: u64,
    info: &ScrubInfo,
) -> (r: (Scrubbed<S>, u64))
    requires
        image.valid(),
        mode == ScrubMode::Partial ==> root_offset <= info.max_end,
    ensures
        r.0.valid(),
        r.0.reliable() == image.reliable(),
        is_scrubbed_image(
            mode,
            root_offset as int,
            *info,
            image.bytes(),
            r.0.bytes(),
            r.1,
        ),
{
    let sectors: u64 = image.size() / SECTOR_SIZE;
    let ghost b = image.bytes();
    let (total, zero_sectors) = plan_scrub(mode, sectors, root_offset, info);
    let r = Scrubbed { image, zero_sectors };
    proof {
        assert forall|i: int| 0 <= i < b.len() implies scrubbed(b, r.zero_sectors@)[i] == (if mode
            == ScrubMode::Partial && i / 2048 < total && info.is_spare((i / 2048) as u64) {
            0
        } else {
            b[i]
        }) by {
            assert((i / 2048) as u64 == i / 2048);
        }
        assert(r.bytes() =~= Seq::new(
            b.len(),
            |i: int|
                if mode == ScrubMode::Partial && i / 2048 < total && info.is_spare(
                    (i / 2048) as u64,
                ) {
                    0
                } else {
                    b[i]
                },
        ));
    }
    (r, total)
}

/// Scrubbing keeps every used sector as it was, and cuts no used byte.
pub proof fn scrubbing_keeps_what_is_used(
    mode: ScrubMode,
    sectors: int,
    root_offset: int,
    info: ScrubInfo,
    s: u64,
)
    requires
        0 <= root_offset <= info.max_end,
        info.used_sectors@.contains(s),
    ensures
        !info.is_spare(s),
        mode == ScrubMode::Partial ==> info.max_end - root_offset <= scrubbed_sectors(
            mode,
            sectors,
            root_offset,
            info,
        ) * 2048 < info.max_end - root_offset + 2048,
        mode != ScrubMode::Partial ==> scrubbed_sectors(mode, sectors, root_offset, info)
            == sectors,
{
}

/// A partial scrub zeroes every sector of an original Xbox image that goes out and that no file
/// uses, and no other; an Xbox 360 image keeps all its sectors as they are. What goes out ends
/// with the sector of the last used byte.
pub proof fn partial_scrub_zeroes_what_is_unused(
    sectors: int,
    root_offset: int,
    info: ScrubInfo,
    n: u64,
    zero: Set<u64>,
    s: u64,
)
    requires
        0 <= root_offset <= info.max_end,
        is_scrub_plan(ScrubMode::Partial, sectors, root_offset, info, n, zero),
    ensures
        info.platform == Platform::Xbox && s < n && !info.used_sectors@.contains(s)
            ==> zero.contains(s),
        zero.contains(s) ==> s < n && !info.used_sectors@.contains(s),
        info.platform == Platform::X360 ==> !zero.contains(s),
        root_offset + n * 2048 >= info.max_end,
        n > 0 ==> root_offset + (n - 1) * 2048 < info.max_end,
{
}

/// A copy, and a rebuilt image, go out whole and as they are.
pub proof fn other_scrubs_change_nothing(
    mode: ScrubMode,
    sectors: int,
    root_offset: int,
    info: ScrubInfo,
    n: u64,
    zero: Set<u64>,
    s: u64,
)
    requires
        is_scrub_plan(mode, sectors, root_offset, info, n, zero),
        mode == ScrubMode::Copy || mode == ScrubMode::Full,
    ensures
        n == sectors,
        !zero.contains(s),
{
}

/// What an image holds once the sectors in `zero` are zeroed: nothing there, and what it held
/// everywhere else.
pub proof fn zeroed_sectors_hold_nothing(image: Seq<u8>, zero: Set<u64>, i: int)
    requires
        0 <= i < image.len() <= u64::MAX,
    ensures
        scrubbed(image, zero).len() == image.len(),
        zero.contains((i / 2048) as u64) ==> scrubbed(image, zero)[i] == 0,
        !zero.contains((i / 2048) as u64) ==> scrubbed(image, zero)[i] == image[i],
{
}

/// `bytes` is the image `image` as `scrub_image` hands it on, and `n` its sectors that go out.
pub open spec fn is_scrubbed_image(
    mode: ScrubMode,
    root_offset: int,
    info: ScrubInfo,
    image: Seq<u8>,
    bytes: Seq<u8>,
    n: u64,
) -> bool {
    &&& n == scrubbed_sectors(mode, image.len() as int / 2048, root_offset, info)
    &&& bytes == Seq::new(
        image.len(),
        |i: int|
            if mode == ScrubMode::Partial && i / 2048 < n && info.is_spare((i / 2048) as u64) {
                0
            } else {
                image[i]
            },
    )
}

/// Of a partly scrubbed original Xbox image every byte of a sector that goes out and that no file
/// uses is zero. Every byte of a used sector, and of an Xbox 360 image, is what it was.
pub proof fn scrubbed_image_holds_what_is_used(
    root_offset: int,
    info: ScrubInfo,
    image: Seq<u8>,
    bytes: Seq<u8>,
    n: u64,
    i: int,
)
    requires
        0 <= root_offset <= info.max_end,
        is_scrubbed_image(ScrubMode::Partial, root_offset, info, image, bytes, n),
        0 <= i < image.len() <= u64::MAX,
    ensures
        bytes.len() == image.len(),
        info.platform == Platform::Xbox && i < n * 2048 && !info.used_sectors@.contains(
            (i / 2048) as u64,
        ) ==> bytes[i] == 0,
        info.used_sectors@.contains((i / 2048) as u64) ==> bytes[i] == image[i],
        info.platform == Platform::X360 ==> bytes[i] == image[i],
        root_offset + n * 2048 >= info.max_end,
        n > 0 ==> root_offset + (n - 1) * 2048 < info.max_end,
{
}

} // verus!
