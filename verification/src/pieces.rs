//! Output that is handed out in pieces, and what the pieces add up to.
use vstd::prelude::*;

verus! {

/// Pieces of output, end to end.
pub open spec fn end_to_end(chunks: Seq<Vec<u8>>) -> Seq<u8>
    decreases chunks.len(),
{
    if chunks.len() == 0 {
        Seq::empty()
    } else {
        end_to_end(chunks.drop_last()) + chunks.last()@
    }
}

/// The pieces that are marked with `key`, end to end.
pub open spec fn pieces_of<K>(key: K, keys: Seq<K>, chunks: Seq<Vec<u8>>) -> Seq<u8>
    decreases chunks.len(),
{
    if chunks.len() == 0 {
        Seq::empty()
    } else {
        let before = pieces_of(key, keys, chunks.drop_last());
        if keys[chunks.len() - 1] == key {
            before + chunks.last()@
        } else {
            before
        }
    }
}

/// If every piece has the same mark, those with it are all of them.
pub proof fn one_mark_is_all<K>(key: K, keys: Seq<K>, chunks: Seq<Vec<u8>>)
    requires
        forall|i: int| 0 <= i < chunks.len() ==> #[trigger] keys[i] == key,
    ensures
        pieces_of(key, keys, chunks) == end_to_end(chunks),
    decreases chunks.len(),
{
    if chunks.len() > 0 {
        one_mark_is_all(key, keys, chunks.drop_last());
    }
}

/// Two ways of marking pieces that agree on which ones are meant pick the same.
pub proof fn same_marks_same_pieces<K, L>(
    key: K,
    keys: Seq<K>,
    mark: L,
    marks: Seq<L>,
    chunks: Seq<Vec<u8>>,
)
    requires
        forall|i: int|
            0 <= i < chunks.len() ==> (#[trigger] keys[i] == key <==> marks[i] == mark),
    ensures
        pieces_of(key, keys, chunks) == pieces_of(mark, marks, chunks),
    decreases chunks.len(),
{
    if chunks.len() > 0 {
        same_marks_same_pieces(key, keys, mark, marks, chunks.drop_last());
        assert(keys[chunks.len() - 1] == key <==> marks[chunks.len() - 1] == mark);
    }
}

/// Piece `i` goes on with entry `at[i]`, of which `written[i]` was there already, and may end it.
/// It is marked with the entry's key.
pub open spec fn goes_on<K>(
    entry_keys: Seq<K>,
    images: Seq<Seq<u8>>,
    at: Seq<int>,
    written: Seq<Seq<u8>>,
    keys: Seq<K>,
    chunks: Seq<Vec<u8>>,
    i: int,
) -> bool {
    &&& 0 <= at[i] < images.len()
    &&& keys[i] == entry_keys[at[i]]
    &&& if at[i + 1] == at[i] {
        written[i + 1] == written[i] + chunks[i]@
    } else {
        &&& at[i + 1] == at[i] + 1
        &&& written[i + 1].len() == 0
        &&& written[i] + chunks[i]@ == images[at[i]]
    }
}

/// The pieces go through the entries from the first one on, one after the other.
pub open spec fn go_through<K>(
    entry_keys: Seq<K>,
    images: Seq<Seq<u8>>,
    at: Seq<int>,
    written: Seq<Seq<u8>>,
    keys: Seq<K>,
    chunks: Seq<Vec<u8>>,
) -> bool {
    &&& entry_keys.len() == images.len()
    &&& forall|a: int, b: int|
        0 <= a < b < entry_keys.len() ==> #[trigger] entry_keys[a] != #[trigger] entry_keys[b]
    &&& at[0] == 0
    &&& written[0].len() == 0
    &&& forall|i: int|
        0 <= i < chunks.len() ==> #[trigger] goes_on(
            entry_keys,
            images,
            at,
            written,
            keys,
            chunks,
            i,
        )
}

/// After `k` pieces, those of an entry add up to the entry if it is over, to what was written of
/// it if it is under way, and to nothing if it is still to come.
pub proof fn pieces_so_far<K>(
    entry_keys: Seq<K>,
    images: Seq<Seq<u8>>,
    at: Seq<int>,
    written: Seq<Seq<u8>>,
    keys: Seq<K>,
    chunks: Seq<Vec<u8>>,
    k: int,
    j: int,
)
    requires
        go_through(entry_keys, images, at, written, keys, chunks),
        0 <= k <= chunks.len(),
        0 <= j < images.len(),
    ensures
        0 <= at[k] <= images.len() || k == 0,
        pieces_of(entry_keys[j], keys, chunks.take(k)) == (if j < at[k] {
            images[j]
        } else if j == at[k] {
            written[k]
        } else {
            Seq::empty()
        }),
    decreases k,
{
    if k > 0 {
        let i = k - 1;
        pieces_so_far(entry_keys, images, at, written, keys, chunks, i, j);
        assert(goes_on(entry_keys, images, at, written, keys, chunks, i));
        assert(chunks.take(k).drop_last() =~= chunks.take(i));
        assert(chunks.take(k).last() == chunks[i]);
        if j < at[i] {
            assert(entry_keys[j] != entry_keys[at[i]]);
        } else if at[i] < j {
            assert(entry_keys[at[i]] != entry_keys[j]);
            if j == at[k] {
                assert(written[k] =~= Seq::empty());
            }
        }
    } else if j == 0 {
        assert(written[0] =~= Seq::empty());
    }
}

/// Once every entry is over, the pieces of each add up to it.
pub proof fn pieces_add_up<K>(
    entry_keys: Seq<K>,
    images: Seq<Seq<u8>>,
    at: Seq<int>,
    written: Seq<Seq<u8>>,
    keys: Seq<K>,
    chunks: Seq<Vec<u8>>,
    j: int,
)
    requires
        go_through(entry_keys, images, at, written, keys, chunks),
        at[chunks.len() as int] >= images.len(),
        0 <= j < images.len(),
    ensures
        pieces_of(entry_keys[j], keys, chunks) == images[j],
{
    let n = chunks.len() as int;
    pieces_so_far(entry_keys, images, at, written, keys, chunks, n, j);
    assert(chunks.take(n) =~= chunks);
}

/// The entries come one after the other: no piece belongs to an earlier one than the piece
/// before it.
pub proof fn pieces_are_in_order<K>(
    entry_keys: Seq<K>,
    images: Seq<Seq<u8>>,
    at: Seq<int>,
    written: Seq<Seq<u8>>,
    keys: Seq<K>,
    chunks: Seq<Vec<u8>>,
    a: int,
    b: int,
)
    requires
        go_through(entry_keys, images, at, written, keys, chunks),
        0 <= a <= b <= chunks.len(),
    ensures
        at[a] <= at[b],
    decreases b,
{
    if a < b {
        pieces_are_in_order(entry_keys, images, at, written, keys, chunks, a, b - 1);
        assert(goes_on(entry_keys, images, at, written, keys, chunks, b - 1));
    }
}

/// Every entry that is over has a piece.
pub proof fn each_entry_has_a_piece<K>(
    entry_keys: Seq<K>,
    images: Seq<Seq<u8>>,
    at: Seq<int>,
    written: Seq<Seq<u8>>,
    keys: Seq<K>,
    chunks: Seq<Vec<u8>>,
    k: int,
    j: int,
) -> (i: int)
    requires
        go_through(entry_keys, images, at, written, keys, chunks),
        0 <= k <= chunks.len(),
        0 <= j < at[k],
    ensures
        0 <= i < k,
        at[i] == j,
    decreases k,
{
    assert(goes_on(entry_keys, images, at, written, keys, chunks, k - 1));
    if at[k - 1] == j {
        k - 1
    } else {
        each_entry_has_a_piece(entry_keys, images, at, written, keys, chunks, k - 1, j)
    }
}

} // verus!
