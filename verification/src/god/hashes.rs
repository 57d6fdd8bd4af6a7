//! What the hash blocks of a written package hold, byte by byte.
use crate::bytes::{ceil_div, overwrite};
use crate::digest::sha1_of;
use crate::god::hash_list::{hash_list_round_trips, is_nonzero, list_bytes, used_len};
use crate::god::read::{offset_of_sector, part_of_sector};
use crate::god::round_trip::{
    is_whole_run, lemma_whole_session, piece_names, planned_part, whole_run_is_the_parts,
};
use crate::god::write::{
    block_hashes, block_of, chained_table, lemma_body_len, lemma_subpart_at, lemma_table_len,
    master_hashes, master_table, part_body, part_count_of, part_image, part_path, sub_table,
    subpart, subparts, GodHeader, GodSession,
};
use crate::pieces::pieces_of;
use crate::source::ByteSource;
use vstd::prelude::*;

verus! {

/// Where the hash block of subpart `s` stands in its part: behind the master hash block and the
/// subparts before it, each of a hash block and 0xCC blocks.
pub open spec fn table_at(s: int) -> int {
    0x1000 + s * 0xCD * 0x1000
}

/// Where block `k` of subpart `s` stands in its part: behind the hash block and the blocks before
/// it.
pub open spec fn block_place(s: int, k: int) -> int {
    table_at(s) + 0x1000 + k * 0x1000
}

/// Block `k` of subpart `s` as it stands in the part; the last one of the package may be short.
pub open spec fn block_in_part(part: Seq<u8>, s: int, k: int) -> Seq<u8> {
    part.subrange(
        block_place(s, k),
        if block_place(s, k) + 0x1000 < part.len() {
            block_place(s, k) + 0x1000
        } else {
            part.len() as int
        },
    )
}

/// The 20 bytes from `at` are the digest of `data`.
pub open spec fn digest_stands_at(part: Seq<u8>, at: int, data: Seq<u8>) -> bool {
    forall|j: int| 0 <= j < 20 ==> #[trigger] part[at + j] == sha1_of(data)[j]
}

/// Where the hash block of a subpart stands behind the master hash block.
proof fn lemma_sub_table_at(img: Seq<u8>, size: int, p: int, s: int, k: int)
    requires
        0 <= p,
        0 <= s < k <= subparts(size, p),
        size <= img.len(),
    ensures
        s * 0xcd000 + 0x1000 <= part_body(img, size, p, k).len(),
        part_body(img, size, p, k).subrange(s * 0xcd000, s * 0xcd000 + 0x1000) == sub_table(
            subpart(img, size, p, s),
        ),
    decreases k,
{
    let all = part_body(img, size, p, k);
    let at = s * 0xcd000;
    lemma_subpart_at(img, size, p, s, k);
    if s == k - 1 {
        lemma_body_len(img, size, p, s);
        assert(part_body(img, size, p, s).len() == s * 0xcd000);
        assert(all.subrange(at, at + 0x1000) =~= sub_table(subpart(img, size, p, s)));
    } else {
        lemma_sub_table_at(img, size, p, s, k - 1);
        assert(all.subrange(at, at + 0x1000) =~= part_body(img, size, p, k - 1).subrange(
            at,
            at + 0x1000,
        ));
    }
}

/// What part `p` holds of subpart `s`.
proof fn lemma_subpart_in_part(img: Seq<u8>, size: int, n: int, p: int, s: int)
    requires
        n == part_count_of(size),
        size <= img.len(),
        0 <= p < n,
        0 <= s < 0xCB,
        p * 0xa1c4000 + s * 0xcc000 < size,
    ensures
        ({
            let part = part_image(img, size, n, p);
            let d = subpart(img, size, p, s);
            &&& s < subparts(size, p)
            &&& table_at(s) + 0x1000 + d.len() <= part.len()
            &&& part.subrange(table_at(s), table_at(s) + 0x1000) == sub_table(d)
            &&& part.subrange(table_at(s) + 0x1000, table_at(s) + 0x1000 + d.len()) == d
            &&& d.len() < 0xcc000 ==> table_at(s) + 0x1000 + d.len() == part.len()
        }),
{
    let part = part_image(img, size, n, p);
    let d = subpart(img, size, p, s);
    let k = subparts(size, p);
    let body = part_body(img, size, p, k);
    lemma_table_len(img, size, n, p);
    assert(s < k);
    lemma_sub_table_at(img, size, p, s, k);
    lemma_subpart_at(img, size, p, s, k);
    lemma_body_len(img, size, p, k);
    assert(part.subrange(table_at(s), table_at(s) + 0x1000) =~= body.subrange(
        s * 0xcd000,
        s * 0xcd000 + 0x1000,
    ));
    assert(part.subrange(table_at(s) + 0x1000, table_at(s) + 0x1000 + d.len()) =~= body.subrange(
        s * 0xcd000 + 0x1000,
        s * 0xcd000 + 0x1000 + d.len(),
    ));
}

/// Every data block of a part is hashed: slot `k` of the hash block of subpart `s` is the SHA-1
/// digest of block `k` of that subpart, as both stand in the part. The block is where a reader
/// looks for its first sector, and holds what the image holds there. Behind the last block's slot
/// the hash block is zero.
pub proof fn every_block_is_hashed(img: Seq<u8>, size: int, n: int, p: int, s: int, k: int)
    requires
        n == part_count_of(size),
        size <= img.len(),
        0 <= p < n,
        0 <= s < 0xCB,
        0 <= k < 0xCC,
        p * 0xA1C4 * 0x1000 + s * 0xCC * 0x1000 < size,
    ensures
        ({
            let part = part_image(img, size, n, p);
            let from = (p * 0xA1C4 + s * 0xCC + k) * 0x1000;
            let sector = (p * 0xA1C4 + s * 0xCC + k) * 2;
            &&& part_of_sector(sector) == p
            &&& offset_of_sector(sector) == block_place(s, k)
            &&& table_at(s) + 0x1000 <= part.len()
            &&& from < size ==> {
                &&& block_place(s, k) < part.len()
                &&& digest_stands_at(part, table_at(s) + k * 20, block_in_part(part, s, k))
                &&& block_in_part(part, s, k) == img.subrange(
                    from,
                    if from + 0x1000 < size {
                        from + 0x1000
                    } else {
                        size
                    },
                )
            }
            &&& from >= size ==> forall|j: int|
                0 <= j < 20 ==> #[trigger] part[table_at(s) + k * 20 + j] == 0
        }),
{
    lemma_sector_place(p, s, k);
    lemma_digest_slot(img, size, n, p, s, k);
    if (p * 0xA1C4 + s * 0xCC + k) * 0x1000 < size {
        lemma_block_contents(img, size, n, p, s, k);
    }
}

/// Where a reader looks for the first sector of a block.
proof fn lemma_sector_place(p: int, s: int, k: int)
    requires
        0 <= p,
        0 <= s < 0xCB,
        0 <= k < 0xCC,
    ensures
        part_of_sector((p * 0xA1C4 + s * 0xCC + k) * 2) == p,
        offset_of_sector((p * 0xA1C4 + s * 0xCC + k) * 2) == block_place(s, k),
{
    let sector = (p * 0xA1C4 + s * 0xCC + k) * 2;
    assert(sector / 2 == p * 0xA1C4 + (s * 0xCC + k));
    assert(sector / 2 / 0xA1C4 == p);
    assert(sector / 2 % 0xA1C4 == s * 0xCC + k);
    assert((s * 0xCC + k) / 0xCC == s);
    assert(sector % 2 == 0);
}

/// What slot `k` of a hash block holds.
proof fn lemma_digest_slot(img: Seq<u8>, size: int, n: int, p: int, s: int, k: int)
    requires
        n == part_count_of(size),
        size <= img.len(),
        0 <= p < n,
        0 <= s < 0xCB,
        0 <= k < 0xCC,
        p * 0xA1C4 * 0x1000 + s * 0xCC * 0x1000 < size,
    ensures
        ({
            let part = part_image(img, size, n, p);
            let d = subpart(img, size, p, s);
            let from = (p * 0xA1C4 + s * 0xCC + k) * 0x1000;
            &&& table_at(s) + 0x1000 <= part.len()
            &&& from < size ==> digest_stands_at(part, table_at(s) + k * 20, block_of(d, k))
            &&& from >= size ==> forall|j: int|
                0 <= j < 20 ==> #[trigger] part[table_at(s) + k * 20 + j] == 0
        }),
{
    let part = part_image(img, size, n, p);
    let d = subpart(img, size, p, s);
    lemma_subpart_in_part(img, size, n, p, s);
    let table = sub_table(d);
    let hashes = block_hashes(d);
    assert(d.len() <= 0xcc000);
    assert forall|j: int| 0 <= j < 20 implies #[trigger] part[table_at(s) + k * 20 + j] == (if k
        < hashes.len() {
        hashes[k][j]
    } else {
        0
    }) by {
        let i = k * 20 + j;
        assert(part.subrange(table_at(s), table_at(s) + 0x1000)[i] == part[table_at(s) + i]);
        assert(i / 20 == k);
        assert(i % 20 == j);
        assert(table[i] == list_bytes(hashes)[i]);
    }
    if (p * 0xA1C4 + s * 0xCC + k) * 0x1000 < size {
        assert(k * 0x1000 < d.len());
        assert(k < hashes.len());
    } else {
        assert(k * 0x1000 >= d.len());
        assert(k >= hashes.len());
    }
}

/// What block `k` of a subpart holds as it stands in its part.
proof fn lemma_block_contents(img: Seq<u8>, size: int, n: int, p: int, s: int, k: int)
    requires
        n == part_count_of(size),
        size <= img.len(),
        0 <= p < n,
        0 <= s < 0xCB,
        0 <= k < 0xCC,
        (p * 0xA1C4 + s * 0xCC + k) * 0x1000 < size,
    ensures
        ({
            let part = part_image(img, size, n, p);
            let from = (p * 0xA1C4 + s * 0xCC + k) * 0x1000;
            &&& block_place(s, k) < part.len()
            &&& block_in_part(part, s, k) == block_of(subpart(img, size, p, s), k)
            &&& block_in_part(part, s, k) == img.subrange(
                from,
                if from + 0x1000 < size {
                    from + 0x1000
                } else {
                    size
                },
            )
        }),
{
    let part = part_image(img, size, n, p);
    let d = subpart(img, size, p, s);
    let from = (p * 0xA1C4 + s * 0xCC + k) * 0x1000;
    assert(p * 0xA1C4 * 0x1000 + s * 0xCC * 0x1000 < size);
    lemma_subpart_in_part(img, size, n, p, s);
    assert(k * 0x1000 < d.len());
    let piece = part.subrange(table_at(s) + 0x1000, table_at(s) + 0x1000 + d.len());
    assert(block_in_part(part, s, k) =~= block_of(d, k)) by {
        assert forall|i: int| 0 <= i < block_of(d, k).len() implies #[trigger] block_of(d, k)[i]
            == part[block_place(s, k) + i] by {
            assert(piece[k * 0x1000 + i] == d[k * 0x1000 + i]);
        }
        if (k + 1) * 0x1000 > d.len() {
            assert(d.len() < 0xcc000);
        }
    }
    assert(block_of(d, k) =~= img.subrange(
        from,
        if from + 0x1000 < size {
            from + 0x1000
        } else {
            size
        },
    ));
}

/// The digests in the master hash block of part `p` are twenty bytes, and not all of them zero.
pub open spec fn digests_count(img: Seq<u8>, size: int, n: int, p: int) -> bool {
    &&& forall|s: int|
        0 <= s < 0xCB && p * 0xA1C4 * 0x1000 + s * 0xCC * 0x1000 < size ==> is_nonzero(
            sha1_of(
                #[trigger] part_image(img, size, n, p).subrange(
                    table_at(s),
                    table_at(s) + 0x1000,
                ),
            ),
        )
    &&& p + 1 < n ==> sha1_of(part_image(img, size, n, p + 1).take(0x1000)).len() == 20
}

/// Every hash block of a part is hashed: slot `s` of its first block is the SHA-1 digest of the
/// hash block of subpart `s`. The slot behind the last one holds, but in the last part, the digest
/// of the first block of the next part.
pub proof fn every_hash_block_is_hashed(img: Seq<u8>, size: int, n: int, p: int, s: int)
    requires
        n == part_count_of(size),
        size <= img.len(),
        0 <= p < n,
        0 <= s < 0xCB,
        p * 0xA1C4 * 0x1000 + s * 0xCC * 0x1000 < size,
        digests_count(img, size, n, p),
    ensures
        ({
            let part = part_image(img, size, n, p);
            let next = part_image(img, size, n, p + 1);
            &&& part.len() >= 0x1000
            &&& digest_stands_at(
                part,
                s * 20,
                part.subrange(table_at(s), table_at(s) + 0x1000),
            )
            &&& p + 1 < n ==> digest_stands_at(part, 0xFDC, next.take(0x1000))
        }),
{
    let part = part_image(img, size, n, p);
    let count = subparts(size, p);
    let hashes = master_hashes(img, size, p, count);
    let m = master_table(img, size, p);
    let table = chained_table(img, size, n, p);
    lemma_table_len(img, size, n, p);
    lemma_subpart_in_part(img, size, n, p, s);
    assert forall|k: int| 0 <= k < hashes.len() implies is_nonzero(#[trigger] hashes[k]) by {
        assert(p * 0xa1c4000 + k * 0xcc000 < size);
        lemma_subpart_in_part(img, size, n, p, k);
        assert(is_nonzero(sha1_of(part.subrange(table_at(k), table_at(k) + 0x1000))));
    }
    hash_list_round_trips(hashes);
    assert(used_len(m) == count * 20);
    assert forall|j: int| 0 <= j < 20 implies #[trigger] part[s * 20 + j] == hashes[s][j] by {
        let i = s * 20 + j;
        assert(i / 20 == s);
        assert(i % 20 == j);
        assert(part[i] == table[i]);
        assert(m[i] == hashes[s][j]);
    }
    if p + 1 < n {
        let next = part_image(img, size, n, p + 1);
        let chained = chained_table(img, size, n, p + 1);
        lemma_table_len(img, size, n, p + 1);
        assert(next.take(0x1000) =~= chained);
        assert(count == 0xCB);
        assert(table == overwrite(m, used_len(m), sha1_of(chained)));
        assert(is_nonzero(hashes[0]));
        assert forall|j: int| 0 <= j < 20 implies #[trigger] part[0xFDC + j] == sha1_of(
            chained,
        )[j] by {
            assert(part[0xFDC + j] == table[0xFDC + j]);
        }
    }
}

/// The parts that a session hands out from beginning to end vouch for each other: every data block
/// is hashed in its subpart's hash block, every hash block in the first block of its part, every
/// first block in that of the part before, and that of part 0 in the header. The header counts the
/// blocks of the data, the parts and all their bytes.
pub proof fn whole_run_hashes_itself<S: ByteSource>(
    states: Seq<GodSession<S>>,
    sizes: Seq<usize>,
    chunks: Seq<Vec<u8>>,
    end: GodSession<S>,
    last_size: usize,
    header: GodHeader,
    p: int,
    s: int,
    k: int,
)
    requires
        is_whole_run(states, sizes, chunks, end, last_size, header),
        states[0].data_size <= states[0].img().len(),
        0 <= p,
        0 <= s < 0xCB,
        0 <= k < 0xCC,
        (p * 0xA1C4 + s * 0xCC + k) * 0x1000 < states[0].data_size,
        digests_count(states[0].img(), states[0].size(), states[0].n(), p),
    ensures
        ({
            let size = states[0].data_size as int;
            let names = piece_names(states);
            let part = pieces_of(part_path(states[0].prefix(), p), names, chunks);
            let next = pieces_of(part_path(states[0].prefix(), p + 1), names, chunks);
            let first = pieces_of(part_path(states[0].prefix(), 0), names, chunks);
            &&& digest_stands_at(part, table_at(s) + k * 20, block_in_part(part, s, k))
            &&& digest_stands_at(
                part,
                s * 20,
                part.subrange(table_at(s), table_at(s) + 0x1000),
            )
            &&& (p + 1) * 0xA1C4 * 0x1000 < size ==> digest_stands_at(
                part,
                0xFDC,
                next.take(0x1000),
            )
            &&& header.mht_hash@ == sha1_of(first.take(0x1000))
            &&& header.block_count * 0x1000 >= size > (header.block_count - 1) * 0x1000
            &&& header.part_count * 0xA1C4 >= header.block_count > (header.part_count - 1) * 0xA1C4
            &&& (header.part_count - 1) * 0xA290 * 0x1000 < header.parts_size
                <= header.part_count * 0xA290 * 0x1000
        }),
{
    let a = states[0];
    let img = a.img();
    let size = a.size();
    let n = a.n();
    whole_run_is_the_parts(states, sizes, chunks, end, last_size, header);
    lemma_whole_session(states, sizes, chunks, end, last_size, header);
    assert(p * 0xA1C4 * 0x1000 < size);
    lemma_parts_of(size, p);
    assert(0 <= p < n);
    assert(pieces_of(part_path(a.prefix(), p), piece_names(states), chunks) == planned_part(a, p));
    assert(pieces_of(part_path(a.prefix(), 0), piece_names(states), chunks) == planned_part(a, 0));
    every_block_is_hashed(img, size, n, p, s, k);
    every_hash_block_is_hashed(img, size, n, p, s);
    if (p + 1) * 0xA1C4 * 0x1000 < size {
        lemma_parts_of(size, p + 1);
        assert(pieces_of(part_path(a.prefix(), p + 1), piece_names(states), chunks)
            == planned_part(a, p + 1));
    }
    lemma_table_len(img, size, n, 0);
    assert(planned_part(a, 0).take(0x1000) =~= chained_table(img, size, n, 0));
    lemma_parts_of(size, n - 1);
    lemma_table_len(img, size, n, n - 1);
    lemma_body_len(img, size, n - 1, subparts(size, n - 1));
}

proof fn lemma_parts_of(size: int, p: int)
    requires
        0 <= p,
        0 < size,
    ensures
        p < part_count_of(size) <==> p * 0xA1C4 * 0x1000 < size,
        part_count_of(size) * 0xA1C4 >= ceil_div(size, 0x1000) > (part_count_of(size) - 1) * 0xA1C4,
        ceil_div(size, 0x1000) * 0x1000 >= size > (ceil_div(size, 0x1000) - 1) * 0x1000,
{
    let b = ceil_div(size, 0x1000);
    assert(b == (size + 0xFFF) / 0x1000);
    assert(part_count_of(size) == (b + 0xA1C3) / 0xA1C4);
}

} // verus!
