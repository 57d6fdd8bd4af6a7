//! Hash blocks: up to 204 digests, zero-padded to a block.
use crate::bytes::{overwrite, put_slice, take_array, zeros};
use crate::digest::{sha1_digest, sha1_of};
use vstd::prelude::*;

verus! {

/// A hash block, and how many of its bytes hold digests.
pub struct HashList {
    pub buffer: [u8; 4096],
    pub len: usize,
}

/// Too few bytes for a hash block.
#[derive(Clone, Copy, Debug, PartialEq, Eq, Structural)]
pub struct ShortHashList;

/// The `p`-th run of 20 bytes is all zero; the last run has 16.
pub open spec fn zero_run(b: Seq<u8>, p: int) -> bool {
    forall|i: int| p * 20 <= i < p * 20 + 20 && i < 4096 ==> #[trigger] b[i] == 0
}

/// Where the digests of a hash block end, looked for from run `p` on: at the first run of zeros.
pub open spec fn used_from(b: Seq<u8>, p: int) -> int
    decreases 205 - p,
{
    if p >= 205 {
        4096
    } else if zero_run(b, p) {
        p * 20
    } else {
        used_from(b, p + 1)
    }
}

/// Where the digests of a hash block end.
pub open spec fn used_len(b: Seq<u8>) -> int {
    used_from(b, 0)
}

/// The hash block of these digests.
pub open spec fn list_bytes(hashes: Seq<Seq<u8>>) -> Seq<u8> {
    Seq::new(
        4096,
        |i: int|
            if i / 20 < hashes.len() {
                hashes[i / 20][i % 20]
            } else {
                0
            },
    )
}

proof fn lemma_list_push(hashes: Seq<Seq<u8>>, h: Seq<u8>)
    requires
        hashes.len() < 204,
        h.len() == 20,
    ensures
        overwrite(list_bytes(hashes), hashes.len() as int * 20, h) == list_bytes(hashes.push(h)),
{
    let a = overwrite(list_bytes(hashes), hashes.len() as int * 20, h);
    let b = list_bytes(hashes.push(h));
    let n = hashes.len() as int;
    assert forall|i: int| 0 <= i < 4096 implies a[i] == b[i] by {
        if n * 20 <= i < n * 20 + 20 {
            assert(i / 20 == n);
            assert(i % 20 == i - n * 20);
        } else {
            assert(i / 20 != n);
        }
    }
    assert(a =~= b);
}

/// This list holds exactly these digests.
pub open spec fn holds(list: HashList, hashes: Seq<Seq<u8>>) -> bool {
    &&& hashes.len() <= 204
    &&& list.len == hashes.len() * 20
    &&& list.buffer@ == list_bytes(hashes)
}

impl Default for HashList {
    fn default() -> (r: HashList)
        ensures
            holds(r, Seq::empty()),
    {
        HashList::new()
    }
}

impl HashList {
    pub fn bytes(&self) -> (r: &[u8; 4096])
        ensures
            *r == self.buffer,
    {
        &self.buffer
    }

    /// An empty list.
    pub fn new() -> (r: HashList)
        ensures
            r.len == 0,
            r.buffer@ == zeros(4096),
            holds(r, Seq::empty()),
    {
        let r = HashList { buffer: [0u8; 4096], len: 0 };
        assert(r.buffer@ =~= zeros(4096));
        assert(r.buffer@ =~= list_bytes(Seq::empty()));
        r
    }

    /// Reads a list from the first 4096 bytes; its digests end at the first run of zeros.
    pub fn read(bytes: &[u8]) -> (r: Result<HashList, ShortHashList>)
        ensures
            r is Ok <==> bytes@.len() >= 4096,
            r matches Ok(l) ==> l.buffer@ == bytes@.take(4096) && l.len == used_len(
                bytes@.take(4096),
            ),
    {
        if bytes.len() < 4096 {
            return Err(ShortHashList);
        }
        let buffer: [u8; 4096] = take_array(bytes, 0);
        assert(buffer@ =~= bytes@.take(4096));
        let ghost b = buffer@;
        let mut p: usize = 0;
        while p < 205
            invariant
                p <= 205,
                b == buffer@,
                b == bytes@.take(4096),
                bytes@.len() >= 4096,
                used_len(b) == used_from(b, p as int),
            decreases 205 - p,
        {
            let start: usize = p * 20;
            let stop: usize = if p == 204 {
                4096
            } else {
                start + 20
            };
            let mut i: usize = start;
            let mut all_zero = true;
            while i < stop
                invariant
                    start == p * 20,
                    p < 205,
                    start <= i <= stop <= 4096,
                    stop == (if p == 204 { 4096 } else { p * 20 + 20 }),
                    b == buffer@,
                    b.len() == 4096,
                    all_zero == (forall|j: int| start <= j < i ==> #[trigger] b[j] == 0),
                decreases stop - i,
            {
                if buffer[i] != 0 {
                    all_zero = false;
                }
                i = i + 1;
            }
            assert(all_zero == zero_run(b, p as int));
            if all_zero {
                return Ok(HashList { buffer, len: start });
            }
            p = p + 1;
        }
        Ok(HashList { buffer, len: 4096 })
    }

    /// Appends a digest. There is room for 204.
    pub fn add_hash(&mut self, hash: &[u8; 20])
        requires
            old(self).len + 20 <= 4096,
        ensures
            final(self).len == old(self).len + 20,
            final(self).buffer@ == overwrite(old(self).buffer@, old(self).len as int, hash@),
            forall|hashes: Seq<Seq<u8>>|
                #[trigger] holds(*old(self), hashes) && hashes.len() < 204 ==> holds(
                    *final(self),
                    hashes.push(hash@),
                ),
    {
        let start: usize = self.len;
        let ghost before = self.buffer@;
        let mut i: usize = 0;
        while i < 20
            invariant
                i <= 20,
                start + 20 <= 4096,
                self.len == start,
                before.len() == 4096,
                self.buffer@ == overwrite(before, start as int, hash@.take(i as int)),
            decreases 20 - i,
        {
            self.buffer[start + i] = hash[i];
            i = i + 1;
            assert(self.buffer@ =~= overwrite(before, start as int, hash@.take(i as int)));
        }
        assert(hash@.take(20) =~= hash@);
        self.len = start + 20;
        proof {
            assert forall|hashes: Seq<Seq<u8>>|
                #[trigger] holds(*old(self), hashes) && hashes.len() < 204 implies holds(
                *self,
                hashes.push(hash@),
            ) by {
                lemma_list_push(hashes, hash@);
            }
        }
    }

    /// Appends the digest of `block`.
    pub fn add_block_hash(&mut self, block: &[u8])
        requires
            old(self).len + 20 <= 4096,
        ensures
            final(self).len == old(self).len + 20,
            final(self).buffer@ == overwrite(
                old(self).buffer@,
                old(self).len as int,
                sha1_of(block@),
            ),
            forall|hashes: Seq<Seq<u8>>|
                #[trigger] holds(*old(self), hashes) && hashes.len() < 204 ==> holds(
                    *final(self),
                    hashes.push(sha1_of(block@)),
                ),
    {
        let hash = sha1_digest(block);
        self.add_hash(&hash);
    }

    /// The digest of the whole block.
    pub fn digest(&self) -> (r: [u8; 20])
        ensures
            r@ == sha1_of(self.buffer@),
    {
        sha1_digest(self.buffer.as_slice())
    }

    /// Appends the block to `out`.
    pub fn write(&self, out: &mut Vec<u8>)
        ensures
            final(out)@ == old(out)@ + self.buffer@,
    {
        put_slice(out, self.buffer.as_slice());
    }
}

proof fn lemma_used_from(hashes: Seq<Seq<u8>>, p: int)
    requires
        hashes.len() <= 204,
        forall|k: int| 0 <= k < hashes.len() ==> is_nonzero(#[trigger] hashes[k]),
        0 <= p <= hashes.len(),
    ensures
        used_from(list_bytes(hashes), p) == hashes.len() * 20,
    decreases hashes.len() - p,
{
    let b = list_bytes(hashes);
    if p < hashes.len() {
        let h = hashes[p];
        assert(is_nonzero(h));
        let j = choose|j: int| 0 <= j < 20 && #[trigger] h[j] != 0;
        let i = p * 20 + j;
        assert(i / 20 == p && i % 20 == j);
        assert(b[i] != 0);
        assert(!zero_run(b, p));
        lemma_used_from(hashes, p + 1);
    } else {
        assert(zero_run(b, p)) by {
            assert forall|i: int| p * 20 <= i < p * 20 + 20 && i < 4096 implies #[trigger] b[i]
                == 0 by {
                assert(i / 20 == p);
            }
        }
    }
}

/// A digest of 20 bytes that are not all zero.
pub open spec fn is_nonzero(h: Seq<u8>) -> bool {
    h.len() == 20 && exists|j: int| 0 <= j < 20 && #[trigger] h[j] != 0
}

/// A list of digests, none of them all zero, reads back from its block, also when it is full.
pub proof fn hash_list_round_trips(hashes: Seq<Seq<u8>>)
    requires
        hashes.len() <= 204,
        forall|k: int| 0 <= k < hashes.len() ==> is_nonzero(#[trigger] hashes[k]),
    ensures
        used_len(list_bytes(hashes)) == hashes.len() * 20,
{
    lemma_used_from(hashes, 0);
}

} // verus!
