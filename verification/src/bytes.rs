//! Fixed-width integers as byte sequences, and writing into a byte buffer.
use vstd::prelude::*;

verus! {

/// 256 to the power `n`: how many values fit in `n` bytes.
pub open spec fn pow256(n: nat) -> nat
    decreases n,
{
    if n == 0 {
        1
    } else {
        256 * pow256((n - 1) as nat)
    }
}

/// The number that `s` spells, most significant byte first.
pub open spec fn be_val(s: Seq<u8>) -> nat
    decreases s.len(),
{
    if s.len() == 0 {
        0
    } else {
        be_val(s.drop_last()) * 256 + s.last() as nat
    }
}

/// The low `n` bytes of `v`, most significant byte first.
pub open spec fn be_bytes(v: nat, n: nat) -> Seq<u8>
    decreases n,
{
    if n == 0 {
        Seq::empty()
    } else {
        be_bytes(v / 256, (n - 1) as nat).push((v % 256) as u8)
    }
}

/// The number that `s` spells, least significant byte first.
pub open spec fn le_val(s: Seq<u8>) -> nat
    decreases s.len(),
{
    if s.len() == 0 {
        0
    } else {
        s[0] as nat + 256 * le_val(s.drop_first())
    }
}

/// The low `n` bytes of `v`, least significant byte first.
pub open spec fn le_bytes(v: nat, n: nat) -> Seq<u8>
    decreases n,
{
    if n == 0 {
        Seq::empty()
    } else {
        seq![(v % 256) as u8] + le_bytes(v / 256, (n - 1) as nat)
    }
}

/// The `n` bytes of `s` from offset `at`.
pub open spec fn field(s: Seq<u8>, at: int, n: int) -> Seq<u8> {
    s.subrange(at, at + n)
}

/// `n` zero bytes.
pub open spec fn zeros(n: nat) -> Seq<u8> {
    Seq::new(n, |i: int| 0u8)
}

/// `s` with `data` written over it from offset `at`.
pub open spec fn overwrite(s: Seq<u8>, at: int, data: Seq<u8>) -> Seq<u8> {
    Seq::new(
        s.len(),
        |i: int| if at <= i < at + data.len() { data[i - at] } else { s[i] },
    )
}

/// What an optional buffer holds.
pub open spec fn opt_view(o: Option<Vec<u8>>) -> Option<Seq<u8>> {
    match o {
        Some(v) => Some(v@),
        None => None,
    }
}

/// `v` rounded up to a multiple of `m`.
pub open spec fn round_up(v: int, m: int) -> int {
    (v + m - 1) / m * m
}

/// Rounding up to four, and to 1024, which is further.
#[verifier::rlimit(40)]
pub proof fn lemma_round_up(v: int)
    requires
        0 <= v,
    ensures
        v <= round_up(v, 4) < v + 4,
        round_up(v, 4) % 4 == 0,
        round_up(v, 4) <= round_up(v, 0x400) < v + 0x400,
        round_up(v, 0x400) % 0x400 == 0,
{
    let a = (v + 3) / 4;
    let b = (v + 0x3FF) / 0x400;
    assert(round_up(v, 4) == a * 4);
    assert(round_up(v, 0x400) == b * 0x400);
    assert(v <= a * 4 < v + 4);
    assert(v <= b * 0x400 < v + 0x400);
    assert(a * 4 < (b * 0x100 + 1) * 4);
    rounding_goes_up_to_the_next_multiple(v, 4);
    rounding_goes_up_to_the_next_multiple(v, 0x400);
}

/// `v` divided by `m`, rounded up.
pub open spec fn ceil_div(v: int, m: int) -> int {
    (v + m - 1) / m
}

pub proof fn lemma_pow256()
    ensures
        pow256(1) == 0x100,
        pow256(2) == 0x1_0000,
        pow256(3) == 0x100_0000,
        pow256(4) == 0x1_0000_0000,
        pow256(5) == 0x100_0000_0000,
        pow256(8) == 0x1_0000_0000_0000_0000,
{
    reveal_with_fuel(pow256, 9);
}

pub proof fn lemma_pow256_mono(a: nat, b: nat)
    requires
        a <= b,
    ensures
        1 <= pow256(a) <= pow256(b),
    decreases b,
{
    if a < b {
        lemma_pow256_mono(a, (b - 1) as nat);
    } else if b > 0 {
        lemma_pow256_mono((a - 1) as nat, (b - 1) as nat);
    }
}

pub proof fn lemma_be_bound(s: Seq<u8>)
    ensures
        be_val(s) < pow256(s.len()),
    decreases s.len(),
{
    if s.len() > 0 {
        lemma_be_bound(s.drop_last());
    }
}

pub proof fn lemma_le_bound(s: Seq<u8>)
    ensures
        le_val(s) < pow256(s.len()),
    decreases s.len(),
{
    if s.len() > 0 {
        lemma_le_bound(s.drop_first());
    }
}

pub broadcast proof fn lemma_be_bytes_len(v: nat, n: nat)
    ensures
        #[trigger] be_bytes(v, n).len() == n,
    decreases n,
{
    if n > 0 {
        lemma_be_bytes_len(v / 256, (n - 1) as nat);
    }
}

pub broadcast proof fn lemma_le_bytes_len(v: nat, n: nat)
    ensures
        #[trigger] le_bytes(v, n).len() == n,
    decreases n,
{
    if n > 0 {
        lemma_le_bytes_len(v / 256, (n - 1) as nat);
    }
}

/// The low `n` bytes of `v`, read back.
pub proof fn lemma_be_mod(v: nat, n: nat)
    ensures
        be_val(be_bytes(v, n)) == v % pow256(n),
    decreases n,
{
    lemma_pow256_mono(0, n);
    if n > 0 {
        let p = pow256((n - 1) as nat);
        lemma_pow256_mono(0, (n - 1) as nat);
        lemma_be_mod(v / 256, (n - 1) as nat);
        assert(be_bytes(v, n).drop_last() =~= be_bytes(v / 256, (n - 1) as nat));
        vstd::arithmetic::div_mod::lemma_mod_breakdown(v as int, 256, p as int);
    }
}

/// What is written big-endian in `n` bytes is read back, if it fits.
pub broadcast proof fn lemma_be_round_trip(v: nat, n: nat)
    requires
        v < pow256(n),
    ensures
        be_val(#[trigger] be_bytes(v, n)) == v,
    decreases n,
{
    if n > 0 {
        let p = pow256((n - 1) as nat);
        assert(v / 256 < p) by (nonlinear_arith)
            requires
                v < 256 * p,
        ;
        lemma_be_round_trip(v / 256, (n - 1) as nat);
        assert(be_bytes(v, n).drop_last() =~= be_bytes(v / 256, (n - 1) as nat));
    }
}

/// What is written little-endian in `n` bytes is read back, if it fits.
pub broadcast proof fn lemma_le_round_trip(v: nat, n: nat)
    requires
        v < pow256(n),
    ensures
        le_val(#[trigger] le_bytes(v, n)) == v,
    decreases n,
{
    if n > 0 {
        let p = pow256((n - 1) as nat);
        assert(v / 256 < p) by (nonlinear_arith)
            requires
                v < 256 * p,
        ;
        lemma_le_round_trip(v / 256, (n - 1) as nat);
        assert(le_bytes(v, n).drop_first() =~= le_bytes(v / 256, (n - 1) as nat));
    }
}

/// What is written little-endian in `n` bytes reads back as its low `n` bytes.
pub proof fn lemma_le_mod(v: nat, n: nat)
    ensures
        le_val(le_bytes(v, n)) == v % pow256(n),
    decreases n,
{
    lemma_pow256_mono(0, n);
    if n > 0 {
        let p = pow256((n - 1) as nat);
        lemma_pow256_mono(0, (n - 1) as nat);
        lemma_le_mod(v / 256, (n - 1) as nat);
        assert(le_bytes(v, n).drop_first() =~= le_bytes(v / 256, (n - 1) as nat));
        vstd::arithmetic::div_mod::lemma_mod_breakdown(v as int, 256, p as int);
    }
}

/// Reading bytes big-endian and writing the number again gives the bytes.
pub proof fn lemma_be_inverse(s: Seq<u8>)
    ensures
        be_bytes(be_val(s), s.len()) == s,
    decreases s.len(),
{
    if s.len() > 0 {
        lemma_be_inverse(s.drop_last());
        assert(be_bytes(be_val(s), s.len()) =~= s);
    } else {
        assert(be_bytes(be_val(s), s.len()) =~= s);
    }
}

/// Reading bytes little-endian and writing the number again gives the bytes.
pub proof fn lemma_le_inverse(s: Seq<u8>)
    ensures
        le_bytes(le_val(s), s.len()) == s,
    decreases s.len(),
{
    if s.len() > 0 {
        lemma_le_inverse(s.drop_first());
        assert(le_bytes(le_val(s), s.len()) =~= s);
    } else {
        assert(le_bytes(le_val(s), s.len()) =~= s);
    }
}

/// The big-endian number in the `n` bytes of `bytes` from offset `at`.
pub fn get_be(bytes: &[u8], at: usize, n: usize) -> (r: u64)
    requires
        n <= 8,
        at + n <= bytes.len(),
    ensures
        r == be_val(field(bytes@, at as int, n as int)),
        r < pow256(n as nat),
    decreases n,
{
    let ghost s = field(bytes@, at as int, n as int);
    proof {
        lemma_be_bound(s);
        lemma_pow256_mono(n as nat, 8);
        lemma_pow256();
    }
    if n == 0 {
        return 0;
    }
    let high: u64 = get_be(bytes, at, n - 1);
    let low: u8 = bytes[at + n - 1];
    proof {
        assert(s.drop_last() =~= field(bytes@, at as int, n - 1));
        assert(s.last() == low);
    }
    high * 256 + low as u64
}

/// The little-endian number in the `n` bytes of `bytes` from offset `at`.
pub fn get_le(bytes: &[u8], at: usize, n: usize) -> (r: u64)
    requires
        n <= 8,
        at + n <= bytes.len(),
    ensures
        r == le_val(field(bytes@, at as int, n as int)),
        r < pow256(n as nat),
    decreases n,
{
    let ghost s = field(bytes@, at as int, n as int);
    proof {
        lemma_le_bound(s);
        lemma_pow256_mono(n as nat, 8);
        lemma_pow256();
    }
    if n == 0 {
        return 0;
    }
    let high: u64 = get_le(bytes, at + 1, n - 1);
    let low: u8 = bytes[at];
    proof {
        assert(s.drop_first() =~= field(bytes@, at + 1, n - 1));
        assert(s[0] == low);
    }
    low as u64 + 256 * high
}

/// Appends the low `n` bytes of `v`, most significant first.
pub fn put_be(out: &mut Vec<u8>, v: u64, n: usize)
    requires
        n <= 8,
    ensures
        final(out)@ == old(out)@ + be_bytes(v as nat, n as nat),
    decreases n,
{
    if n > 0 {
        put_be(out, v / 256, n - 1);
        out.push((v % 256) as u8);
    }
    assert(out@ =~= old(out)@ + be_bytes(v as nat, n as nat));
}

/// Appends the low `n` bytes of `v`, least significant first.
pub fn put_le(out: &mut Vec<u8>, v: u64, n: usize)
    requires
        n <= 8,
    ensures
        final(out)@ == old(out)@ + le_bytes(v as nat, n as nat),
    decreases n,
{
    if n > 0 {
        out.push((v % 256) as u8);
        put_le(out, v / 256, n - 1);
    }
    assert(out@ =~= old(out)@ + le_bytes(v as nat, n as nat));
}

/// Appends a copy of `data`.
pub fn put_slice(out: &mut Vec<u8>, data: &[u8])
    ensures
        final(out)@ == old(out)@ + data@,
{
    let mut i: usize = 0;
    while i < data.len()
        invariant
            i <= data@.len(),
            out@ == old(out)@ + data@.subrange(0, i as int),
        decreases data@.len() - i,
    {
        out.push(data[i]);
        i = i + 1;
        assert(out@ =~= old(out)@ + data@.subrange(0, i as int));
    }
    assert(data@.subrange(0, i as int) =~= data@);
    assert(out@ =~= old(out)@ + data@);
}

/// Appends `n` zero bytes.
pub fn put_zeros(out: &mut Vec<u8>, n: usize)
    ensures
        final(out)@ == old(out)@ + zeros(n as nat),
{
    let mut i: usize = 0;
    while i < n
        invariant
            i <= n,
            out@ == old(out)@ + zeros(i as nat),
        decreases n - i,
    {
        out.push(0);
        i = i + 1;
        assert(out@ =~= old(out)@ + zeros(i as nat));
    }
    assert(out@ =~= old(out)@ + zeros(n as nat));
}

/// Writes `data` over `out` from offset `at`.
pub fn write_at(out: &mut Vec<u8>, at: usize, data: &[u8])
    requires
        at + data.len() <= old(out).len(),
    ensures
        final(out)@ == overwrite(old(out)@, at as int, data@),
{
    let mut i: usize = 0;
    while i < data.len()
        invariant
            i <= data@.len(),
            at + data.len() <= old(out).len(),
            out@ == overwrite(old(out)@, at as int, data@.subrange(0, i as int)),
        decreases data@.len() - i,
    {
        out.set(at + i, data[i]);
        i = i + 1;
        assert(out@ =~= overwrite(old(out)@, at as int, data@.subrange(0, i as int)));
    }
    assert(data@.subrange(0, i as int) =~= data@);
    assert(out@ =~= overwrite(old(out)@, at as int, data@));
}

/// The array of the `N` bytes of `bytes` from offset `at`.
pub fn take_array<const N: usize>(bytes: &[u8], at: usize) -> (r: [u8; N])
    requires
        at + N <= bytes.len(),
    ensures
        r@ == field(bytes@, at as int, N as int),
{
    let mut r: [u8; N] = vstd::array::array_fill_for_copy_types(0u8);
    let mut i: usize = 0;
    while i < N
        invariant
            i <= N,
            at + N <= bytes.len(),
            forall|j: int| 0 <= j < i ==> r@[j] == bytes@[at + j],
        decreases N - i,
    {
        r[i] = bytes[at + i];
        i = i + 1;
    }
    assert(r@ =~= field(bytes@, at as int, N as int));
    r
}

/// A field that was just written reads back.
pub broadcast proof fn lemma_overwrite_same(s: Seq<u8>, at: int, d: Seq<u8>, n: int)
    requires
        0 <= at,
        at + d.len() <= s.len(),
        n == d.len(),
    ensures
        #[trigger] field(overwrite(s, at, d), at, n) == d,
{
    assert(field(overwrite(s, at, d), at, n) =~= d);
}

/// A field apart from what was written reads as before.
pub broadcast proof fn lemma_overwrite_apart(s: Seq<u8>, at: int, d: Seq<u8>, from: int, n: int)
    requires
        0 <= from,
        0 <= n,
        from + n <= s.len(),
        from + n <= at || at + d.len() <= from,
    ensures
        #[trigger] field(overwrite(s, at, d), from, n) == field(s, from, n),
{
    assert(field(overwrite(s, at, d), from, n) =~= field(s, from, n));
}

/// Overwriting keeps the length.
pub broadcast proof fn lemma_overwrite_len(s: Seq<u8>, at: int, d: Seq<u8>)
    ensures
        #[trigger] overwrite(s, at, d).len() == s.len(),
{
}

pub broadcast group group_fields {
    lemma_overwrite_same,
    lemma_overwrite_apart,
    lemma_overwrite_len,
    lemma_be_bytes_len,
    lemma_le_bytes_len,
}

/// Writes the low `n` bytes of `v` over `out` from offset `at`, most significant first.
pub fn write_be(out: &mut Vec<u8>, at: usize, v: u64, n: usize)
    requires
        n <= 8,
        at + n <= old(out).len(),
    ensures
        final(out)@ == overwrite(old(out)@, at as int, be_bytes(v as nat, n as nat)),
{
    let mut b: Vec<u8> = Vec::new();
    put_be(&mut b, v, n);
    proof {
        lemma_be_bytes_len(v as nat, n as nat);
        assert(b@ =~= be_bytes(v as nat, n as nat));
    }
    write_at(out, at, b.as_slice());
}

/// Writes the low `n` bytes of `v` over `out` from offset `at`, least significant first.
pub fn write_le(out: &mut Vec<u8>, at: usize, v: u64, n: usize)
    requires
        n <= 8,
        at + n <= old(out).len(),
    ensures
        final(out)@ == overwrite(old(out)@, at as int, le_bytes(v as nat, n as nat)),
{
    let mut b: Vec<u8> = Vec::new();
    put_le(&mut b, v, n);
    proof {
        lemma_le_bytes_len(v as nat, n as nat);
        assert(b@ =~= le_bytes(v as nat, n as nat));
    }
    write_at(out, at, b.as_slice());
}

/// A buffer of `n` zero bytes.
pub fn zeroed(n: usize) -> (r: Vec<u8>)
    ensures
        r@ == zeros(n as nat),
{
    let mut r: Vec<u8> = Vec::new();
    put_zeros(&mut r, n);
    assert(r@ =~= zeros(n as nat));
    r
}

/// A copy of the bytes of `data` from `from` to before `to`.
pub fn copy_range(data: &[u8], from: usize, to: usize) -> (r: Vec<u8>)
    requires
        from <= to <= data@.len(),
    ensures
        r@ == data@.subrange(from as int, to as int),
{
    let mut r: Vec<u8> = Vec::new();
    let mut i: usize = from;
    while i < to
        invariant
            from <= i <= to <= data@.len(),
            r@ == data@.subrange(from as int, i as int),
        decreases to - i,
    {
        r.push(data[i]);
        i = i + 1;
        assert(r@ =~= data@.subrange(from as int, i as int));
    }
    r
}

/// Numbers stand big-endian with the high byte first and little-endian with the low byte first:
/// byte `i` of `n` is that of weight 256 to the `n - 1 - i`, or 256 to the `i`.
pub proof fn bytes_stand_by_weight(v: nat, n: nat, i: int)
    requires
        0 <= i < n,
    ensures
        be_bytes(v, n).len() == n,
        le_bytes(v, n).len() == n,
        be_bytes(v, n)[n - 1 - i] as int == v as int / vstd::arithmetic::power::pow(256, i as nat)
            % 256,
        le_bytes(v, n)[i] as int == v as int / vstd::arithmetic::power::pow(256, i as nat) % 256,
    decreases n,
{
    vstd::arithmetic::power::lemma_pow0(256);
    if i > 0 {
        bytes_stand_by_weight(v / 256, (n - 1) as nat, i - 1);
        let p = vstd::arithmetic::power::pow(256, (i - 1) as nat);
        vstd::arithmetic::power::lemma_pow_positive(256, (i - 1) as nat);
        assert(vstd::arithmetic::power::pow(256, i as nat) == 256 * p) by {
            reveal(vstd::arithmetic::power::pow);
        }
        vstd::arithmetic::div_mod::lemma_div_denominator(v as int, 256, p);
        assert(be_bytes(v, n) == be_bytes(v / 256, (n - 1) as nat).push((v % 256) as u8));
        assert(le_bytes(v, n) == seq![(v % 256) as u8] + le_bytes(v / 256, (n - 1) as nat));
        assert(be_bytes(v, n)[n - 1 - i] == be_bytes(v / 256, (n - 1) as nat)[n - 2 - (i - 1)]);
        assert(le_bytes(v, n)[i] == le_bytes(v / 256, (n - 1) as nat)[i - 1]);
    } else {
        if n > 1 {
            bytes_stand_by_weight(v / 256, (n - 1) as nat, 0);
        }
        assert(be_bytes(v, n) == be_bytes(v / 256, (n - 1) as nat).push((v % 256) as u8));
        assert(be_bytes(v / 256, (n - 1) as nat).len() == n - 1);
        assert(le_bytes(v, n) == seq![(v % 256) as u8] + le_bytes(v / 256, (n - 1) as nat));
        assert(be_bytes(v, n)[n - 1] == (v % 256) as u8);
        assert(le_bytes(v, n)[0] == (v % 256) as u8);
        assert(v as int / 1 == v);
    }
}

/// A number is read as it is written: a byte in front of a big-endian number, or behind a
/// little-endian one, weighs 256 to the number of the others.
pub proof fn bytes_are_read_by_weight(b: u8, s: Seq<u8>)
    ensures
        be_val(seq![b] + s) == b * vstd::arithmetic::power::pow(256, s.len()) + be_val(s),
        le_val(s + seq![b]) == b * vstd::arithmetic::power::pow(256, s.len()) + le_val(s),
        be_val(Seq::empty()) == 0,
        le_val(Seq::empty()) == 0,
    decreases s.len(),
{
    vstd::arithmetic::power::lemma_pow0(256);
    if s.len() > 0 {
        let p = vstd::arithmetic::power::pow(256, (s.len() - 1) as nat);
        assert(vstd::arithmetic::power::pow(256, s.len()) == 256 * p) by {
            reveal(vstd::arithmetic::power::pow);
        }
        bytes_are_read_by_weight(b, s.drop_last());
        bytes_are_read_by_weight(b, s.drop_first());
        assert((seq![b] + s).drop_last() =~= seq![b] + s.drop_last());
        assert((s + seq![b]).drop_first() =~= s.drop_first() + seq![b]);
        assert(b * (256 * p) == (b * p) * 256) by (nonlinear_arith);
    } else {
        assert(s =~= Seq::empty());
        assert((seq![b] + s).drop_last() =~= Seq::empty());
        assert((s + seq![b]).drop_first() =~= Seq::empty());
        assert(be_val(Seq::empty()) == 0);
        assert(le_val(Seq::empty()) == 0);
    }
}

/// Writing over a buffer changes nothing but the bytes it writes.
pub proof fn overwriting_keeps_the_rest(s: Seq<u8>, at: int, data: Seq<u8>, i: int)
    requires
        0 <= at,
        at + data.len() <= s.len(),
        0 <= i < s.len(),
    ensures
        overwrite(s, at, data).len() == s.len(),
        overwrite(s, at, data).subrange(at, at + data.len()) == data,
        i < at || at + data.len() <= i ==> overwrite(s, at, data)[i] == s[i],
        forall|n: nat, j: int| 0 <= j < n ==> #[trigger] zeros(n)[j] == 0 && zeros(n).len() == n,
        field(s, at, data.len() as int) == s.subrange(at, at + data.len()),
{
    assert(overwrite(s, at, data).subrange(at, at + data.len()) =~= data);
}

/// Rounding up gives the least multiple that is no smaller, and dividing up says which one it is.
pub proof fn rounding_goes_up_to_the_next_multiple(v: int, m: int)
    requires
        0 <= v,
        0 < m,
    ensures
        v <= round_up(v, m) < v + m,
        round_up(v, m) == ceil_div(v, m) * m,
        round_up(v, m) % m == 0,
{
    let q = (v + m - 1) / m;
    vstd::arithmetic::div_mod::lemma_fundamental_div_mod(v + m - 1, m);
    vstd::arithmetic::div_mod::lemma_mod_bound(v + m - 1, m);
    vstd::arithmetic::div_mod::lemma_mod_multiples_basic(q, m);
    assert(q * m == m * q) by (nonlinear_arith);
}

} // verus!
