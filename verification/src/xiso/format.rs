//! Names and sizes of the parts of a split image.
use crate::utils::text::{decimal, decimal_tells_apart, push_decimal};
use vstd::prelude::*;
use vstd::string::*;

verus! {

pub const SECTOR_SIZE: u64 = 2048;

/// A whole number of sectors, so that a part always ends between two of them.
pub const SPLIT_MARGIN: u64 = 0xFF00_0000;

/// Sectors of a full part.
pub const SPLIT_MARGIN_SECTORS: u64 = 2_088_960;

/// The size at which a part ends.
pub fn xiso_split_margin() -> (r: u32)
    ensures
        r == SPLIT_MARGIN,
{
    SPLIT_MARGIN as u32
}

/// `base.N.xiso.iso`, counted from one.
pub open spec fn split_name(base: Seq<char>, index: int) -> Seq<char> {
    base + "."@ + decimal((index + 1) as nat) + ".xiso.iso"@
}

/// No two parts have the same name.
pub proof fn split_names_differ(base: Seq<char>, a: int, b: int)
    requires
        0 <= a < b,
    ensures
        split_name(base, a) != split_name(base, b),
{
    let x = split_name(base, a);
    let y = split_name(base, b);
    if x == y {
        let i = decimal((a + 1) as nat);
        let j = decimal((b + 1) as nat);
        let from = (base + "."@).len() as int;
        assert(x.len() == from + i.len() + ".xiso.iso"@.len());
        assert(y.len() == from + j.len() + ".xiso.iso"@.len());
        assert(x.subrange(from, from + i.len()) =~= i);
        assert(y.subrange(from, from + j.len()) =~= j);
        decimal_tells_apart((a + 1) as nat, (b + 1) as nat);
    }
}

pub fn split_name_for(base_name: &str, index: u64) -> (r: String)
    requires
        index < u64::MAX,
    ensures
        r@ == split_name(base_name@, index as int),
{
    let mut r = base_name.to_owned();
    r.append(".");
    push_decimal(&mut r, index + 1);
    r.append(".xiso.iso");
    r
}

/// How many parts an output of `total` bytes is split into; an empty one still has a part.
pub open spec fn part_count(total: int) -> int {
    if total <= 0 {
        1
    } else {
        (total + SPLIT_MARGIN - 1) / SPLIT_MARGIN as int
    }
}

/// The size of part `i`: full, but for the last.
pub open spec fn part_size(total: int, i: int) -> int {
    let left = total - i * SPLIT_MARGIN;
    if left < SPLIT_MARGIN {
        left
    } else {
        SPLIT_MARGIN as int
    }
}

/// The parts of an output of `total` bytes, by name and size.
pub open spec fn is_manifest(m: Seq<(String, u64)>, base: Seq<char>, total: int) -> bool {
    &&& m.len() == part_count(total)
    &&& forall|i: int|
        0 <= i < m.len() ==> (#[trigger] m[i]).0@ == split_name(base, i) && m[i].1 == part_size(
            total,
            i,
        )
}

/// The parts of an output of `total_size` bytes.
pub fn build_output_manifest_for(base_name: &str, total_size: u64) -> (r: Vec<(String, u64)>)
    ensures
        is_manifest(r@, base_name@, total_size as int),
{
    let mut manifest: Vec<(String, u64)> = Vec::new();
    if total_size == 0 {
        manifest.push((split_name_for(base_name, 0), 0));
        return manifest;
    }
    let mut remaining: u64 = total_size;
    let mut index: u64 = 0;
    while remaining > 0
        invariant
            manifest@.len() == index,
            remaining == total_size - index * SPLIT_MARGIN || (remaining == 0 && index
                == part_count(total_size as int)),
            total_size > 0,
            index <= part_count(total_size as int),
            forall|i: int|
                0 <= i < index ==> (#[trigger] manifest@[i]).0@ == split_name(base_name@, i)
                    && manifest@[i].1 == part_size(total_size as int, i),
        decreases remaining,
    {
        let part: u64 = if remaining < SPLIT_MARGIN {
            remaining
        } else {
            SPLIT_MARGIN
        };
        manifest.push((split_name_for(base_name, index), part));
        remaining = remaining - part;
        index = index + 1;
    }
    manifest
}

/// The sizes of the first `k` parts together.
pub open spec fn sizes_sum(m: Seq<(String, u64)>, k: int) -> int
    decreases k,
{
    if k <= 0 {
        0
    } else {
        sizes_sum(m, k - 1) + m[k - 1].1
    }
}

proof fn lemma_sizes_sum(m: Seq<(String, u64)>, base: Seq<char>, total: int, k: int)
    requires
        is_manifest(m, base, total),
        total >= 0,
        0 <= k <= m.len(),
    ensures
        sizes_sum(m, k) == if k * SPLIT_MARGIN < total {
            k * SPLIT_MARGIN
        } else {
            total
        },
    decreases k,
{
    if k > 0 {
        lemma_sizes_sum(m, base, total, k - 1);
        assert(m[k - 1].1 == part_size(total, k - 1));
    }
}

/// The parts of a split output hold all of it and nothing more.
pub proof fn parts_make_up_the_output(m: Seq<(String, u64)>, base: Seq<char>, total: int)
    requires
        is_manifest(m, base, total),
        total >= 0,
    ensures
        sizes_sum(m, m.len() as int) == total,
{
    lemma_sizes_sum(m, base, total, m.len() as int);
}

/// No part is larger than the split margin, and every part but the last is exactly that.
pub proof fn parts_are_full_but_the_last(m: Seq<(String, u64)>, base: Seq<char>, total: int, i: int)
    requires
        is_manifest(m, base, total),
        0 <= i < m.len(),
    ensures
        m[i].1 <= SPLIT_MARGIN,
        i < m.len() - 1 ==> m[i].1 == SPLIT_MARGIN,
        total > 0 ==> m[i].1 > 0,
{
    assert(m[i].1 == part_size(total, i));
}

/// The first part is named `base.1.xiso.iso`, the next `base.2.xiso.iso`.
pub proof fn parts_are_numbered_from_one(base: Seq<char>, i: int)
    requires
        0 <= i,
    ensures
        split_name(base, i) == base + "."@ + decimal((i + 1) as nat) + ".xiso.iso"@,
{
}

} // verus!
