//! Characters, digits and joined names.
use vstd::prelude::*;
use vstd::string::*;

verus! {

/// `String::push` appends one character, as its documentation says.
pub assume_specification[ String::push ](s: &mut String, c: char)
    ensures
        final(s)@ == old(s)@.push(c),
;

/// The characters of `s`.
pub fn chars_of(s: &str) -> (r: Vec<char>)
    ensures
        r@ == s@,
{
    broadcast use axiom_spec_iter;

    let mut r: Vec<char> = Vec::new();
    for c in it: s.chars()
        invariant
            it.seq() == s@,
            r@ == s@.take(it.index@),
    {
        r.push(c);
        assert(r@ =~= s@.take(it.index@ + 1));
    }
    assert(r@ =~= s@);
    r
}

/// `c` in lower case, if it is an ASCII letter.
pub open spec fn ascii_lower(c: char) -> char {
    if 'A' <= c && c <= 'Z' {
        ((c as u32) + 32) as char
    } else {
        c
    }
}

/// `s` with its ASCII letters in lower case.
pub open spec fn lower(s: Seq<char>) -> Seq<char> {
    s.map_values(|c: char| ascii_lower(c))
}

/// `a` comes before `b` in the order of code points.
pub open spec fn text_less(a: Seq<char>, b: Seq<char>) -> bool
    decreases a.len(),
{
    if b.len() == 0 {
        false
    } else if a.len() == 0 {
        true
    } else if a[0] == b[0] {
        text_less(a.drop_first(), b.drop_first())
    } else {
        a[0] < b[0]
    }
}

pub proof fn text_less_irreflexive(a: Seq<char>)
    ensures
        !text_less(a, a),
    decreases a.len(),
{
    if a.len() > 0 {
        text_less_irreflexive(a.drop_first());
    }
}

pub proof fn text_less_transitive(a: Seq<char>, b: Seq<char>, c: Seq<char>)
    requires
        text_less(a, b),
        text_less(b, c),
    ensures
        text_less(a, c),
    decreases a.len(),
{
    if a.len() > 0 && b.len() > 0 && c.len() > 0 && a[0] == b[0] && b[0] == c[0] {
        text_less_transitive(a.drop_first(), b.drop_first(), c.drop_first());
    }
}

pub proof fn text_less_total(a: Seq<char>, b: Seq<char>)
    ensures
        a == b || text_less(a, b) || text_less(b, a),
    decreases a.len(),
{
    if a.len() > 0 && b.len() > 0 && a[0] == b[0] {
        text_less_total(a.drop_first(), b.drop_first());
        if a.drop_first() == b.drop_first() {
            assert(a =~= seq![a[0]] + a.drop_first());
            assert(b =~= seq![b[0]] + b.drop_first());
        }
    } else if a.len() == 0 && b.len() == 0 {
        assert(a =~= b);
    }
}

/// At `i` the texts first differ, and the character of `a` there is the smaller one.
pub open spec fn first_differs_at(a: Seq<char>, b: Seq<char>, i: int) -> bool {
    &&& 0 <= i < a.len()
    &&& i < b.len()
    &&& forall|j: int| 0 <= j < i ==> #[trigger] a[j] == b[j]
    &&& (a[i] as u32) < (b[i] as u32)
}

/// `a` stands before `b` in a dictionary: it is a proper beginning of `b`, or, where they first
/// differ, its character is the smaller one.
pub open spec fn in_dictionary_order(a: Seq<char>, b: Seq<char>) -> bool {
    ||| a.len() < b.len() && forall|j: int| 0 <= j < a.len() ==> #[trigger] a[j] == b[j]
    ||| exists|i: int| #[trigger] first_differs_at(a, b, i)
}

proof fn lemma_char_order(a: char, b: char)
    ensures
        a < b <==> (a as u32) < (b as u32),
{
}

/// The order of texts is that of a dictionary.
pub proof fn texts_stand_in_dictionary_order(a: Seq<char>, b: Seq<char>)
    ensures
        text_less(a, b) <==> in_dictionary_order(a, b),
    decreases a.len(),
{
    if a.len() > 0 && b.len() > 0 {
        lemma_char_order(a[0], b[0]);
        let x = a.drop_first();
        let y = b.drop_first();
        if a[0] == b[0] {
            texts_stand_in_dictionary_order(x, y);
            if text_less(a, b) {
                if exists|i: int| #[trigger] first_differs_at(x, y, i) {
                    let i = choose|i: int| #[trigger] first_differs_at(x, y, i);
                    assert forall|j: int| 0 <= j < i + 1 implies #[trigger] a[j] == b[j] by {
                        if j > 0 {
                            assert(x[j - 1] == y[j - 1]);
                        }
                    }
                    assert(x[i] == a[i + 1] && y[i] == b[i + 1]);
                    assert(first_differs_at(a, b, i + 1));
                } else {
                    assert forall|j: int| 0 <= j < a.len() implies #[trigger] a[j] == b[j] by {
                        if j > 0 {
                            assert(x[j - 1] == y[j - 1]);
                        }
                    }
                }
            }
            if exists|i: int| #[trigger] first_differs_at(a, b, i) {
                let i = choose|i: int| #[trigger] first_differs_at(a, b, i);
                assert(i > 0);
                assert forall|j: int| 0 <= j < i - 1 implies #[trigger] x[j] == y[j] by {
                    assert(a[j + 1] == b[j + 1]);
                }
                assert(first_differs_at(x, y, i - 1));
            }
            if a.len() < b.len() && forall|j: int| 0 <= j < a.len() ==> #[trigger] a[j] == b[j] {
                assert forall|j: int| 0 <= j < x.len() implies #[trigger] x[j] == y[j] by {
                    assert(a[j + 1] == b[j + 1]);
                }
            }
        } else {
            if text_less(a, b) {
                assert(first_differs_at(a, b, 0));
            }
            if exists|i: int| #[trigger] first_differs_at(a, b, i) {
                let i = choose|i: int| #[trigger] first_differs_at(a, b, i);
                if i > 0 {
                    assert(a[0] == b[0]);
                }
            }
            if a.len() < b.len() && forall|j: int| 0 <= j < a.len() ==> #[trigger] a[j] == b[j] {
                assert(a[0] == b[0]);
            }
        }
    }
}

/// Without case is: the 26 capital letters of ASCII become the small ones, 32 code points up, and
/// every other character stays.
pub proof fn lower_case_moves_capitals_alone(s: Seq<char>, i: int)
    requires
        0 <= i < s.len(),
    ensures
        lower(s).len() == s.len(),
        0x41 <= s[i] as u32 <= 0x5A ==> lower(s)[i] as u32 == s[i] as u32 + 0x20,
        !(0x41 <= s[i] as u32 <= 0x5A) ==> lower(s)[i] == s[i],
{
    lemma_char_order(s[i], 'A');
    lemma_char_order('Z', s[i]);
    lemma_small_letter(s[i]);
}

pub proof fn lemma_small_letter(c: char)
    ensures
        0x41 <= c as u32 <= 0x5A ==> ascii_lower(c) as u32 == c as u32 + 0x20,
        !(0x41 <= c as u32 <= 0x5A) ==> ascii_lower(c) == c,
{
}

/// `c` in lower case, if it is an ASCII letter.
pub fn to_ascii_lower(c: char) -> (r: char)
    ensures
        r == ascii_lower(c),
{
    if 'A' <= c && c <= 'Z' {
        (c as u8 + 32) as char
    } else {
        c
    }
}

/// The characters of `s`, ASCII letters in lower case.
pub fn lower_chars(s: &str) -> (r: Vec<char>)
    ensures
        r@ == lower(s@),
{
    let chars = chars_of(s);
    let mut r: Vec<char> = Vec::new();
    let mut i: usize = 0;
    while i < chars.len()
        invariant
            i <= chars@.len(),
            chars@ == s@,
            r@.len() == i,
            forall|j: int| 0 <= j < i ==> r@[j] == ascii_lower(s@[j]),
        decreases chars@.len() - i,
    {
        r.push(to_ascii_lower(chars[i]));
        i = i + 1;
    }
    assert(r@ =~= lower(s@));
    r
}

/// Whether `a` and `b` hold the same characters.
pub fn same_chars(a: &Vec<char>, b: &Vec<char>) -> (r: bool)
    ensures
        r == (a@ == b@),
{
    if a.len() != b.len() {
        return false;
    }
    let mut i: usize = 0;
    while i < a.len()
        invariant
            i <= a@.len(),
            a@.len() == b@.len(),
            forall|j: int| 0 <= j < i ==> a@[j] == b@[j],
        decreases a@.len() - i,
    {
        if a[i] != b[i] {
            return false;
        }
        i = i + 1;
    }
    assert(a@ =~= b@);
    true
}

/// Whether `a` comes before `b` in the order of code points.
pub fn chars_less(a: &Vec<char>, b: &Vec<char>) -> (r: bool)
    ensures
        r == text_less(a@, b@),
{
    let mut i: usize = 0;
    assert(a@.skip(0) =~= a@);
    assert(b@.skip(0) =~= b@);
    while i < a.len() && i < b.len()
        invariant
            i <= a@.len(),
            i <= b@.len(),
            text_less(a@, b@) == text_less(a@.skip(i as int), b@.skip(i as int)),
        decreases a@.len() - i,
    {
        if a[i] != b[i] {
            return a[i] < b[i];
        }
        assert(a@.skip(i as int).drop_first() =~= a@.skip(i + 1));
        assert(b@.skip(i as int).drop_first() =~= b@.skip(i + 1));
        i = i + 1;
    }
    i < b.len()
}

/// The decimal digit `d`.
pub open spec fn digit_char(d: nat) -> char {
    (('0' as u32) + d) as char
}

/// `v` in decimal, without leading zeros.
pub open spec fn decimal(v: nat) -> Seq<char>
    decreases v,
{
    if v < 10 {
        seq![digit_char(v)]
    } else {
        decimal(v / 10).push(digit_char(v % 10))
    }
}

/// The number that decimal digits spell.
pub open spec fn decimal_value(s: Seq<char>) -> int
    decreases s.len(),
{
    if s.len() == 0 {
        0
    } else {
        decimal_value(s.drop_last()) * 10 + (s.last() as int - '0' as int)
    }
}

proof fn lemma_zeros_value(s: Seq<char>)
    requires
        forall|i: int| 0 <= i < s.len() ==> #[trigger] s[i] == '0',
    ensures
        decimal_value(s) == 0,
    decreases s.len(),
{
    if s.len() > 0 {
        lemma_zeros_value(s.drop_last());
        assert(s.last() == '0');
    }
}

/// A number in decimal spells itself, also behind leading zeros.
pub proof fn decimal_spells_its_number(zeros: Seq<char>, v: nat)
    requires
        forall|i: int| 0 <= i < zeros.len() ==> #[trigger] zeros[i] == '0',
    ensures
        decimal_value(zeros + decimal(v)) == v,
    decreases v,
{
    let s = zeros + decimal(v);
    if v < 10 {
        lemma_zeros_value(zeros);
        assert(s.drop_last() =~= zeros);
        assert(s.last() == digit_char(v));
    } else {
        decimal_spells_its_number(zeros, v / 10);
        assert(s.drop_last() =~= zeros + decimal(v / 10));
        assert(s.last() == digit_char(v % 10));
    }
}

/// No two numbers are written alike.
pub proof fn decimal_tells_apart(a: nat, b: nat)
    requires
        decimal(a) == decimal(b),
    ensures
        a == b,
{
    decimal_spells_its_number(Seq::empty(), a);
    decimal_spells_its_number(Seq::empty(), b);
}

/// `v` in upper-case hexadecimal, in exactly `n` digits (the low ones).
pub open spec fn hex_digits(v: nat, n: nat) -> Seq<char>
    decreases n,
{
    if n == 0 {
        Seq::empty()
    } else {
        hex_digits(v / 16, (n - 1) as nat).push(
            if v % 16 < 10 {
                digit_char(v % 16)
            } else {
                (('A' as u32) + (v % 16 - 10)) as char
            },
        )
    }
}

fn digit_of(d: u8) -> (c: char)
    requires
        d < 10,
    ensures
        c == digit_char(d as nat),
{
    (48u8 + d) as char
}

/// Appends `v` in decimal.
pub fn push_decimal(out: &mut String, v: u64)
    ensures
        final(out)@ == old(out)@ + decimal(v as nat),
    decreases v,
{
    if v >= 10 {
        push_decimal(out, v / 10);
        out.push(digit_of((v % 10) as u8));
    } else {
        out.push(digit_of(v as u8));
    }
    assert(out@ =~= old(out)@ + decimal(v as nat));
}

/// `v` in decimal, in at least four digits.
pub open spec fn decimal4(v: nat) -> Seq<char> {
    (if v < 10 {
        seq!['0', '0', '0']
    } else if v < 100 {
        seq!['0', '0']
    } else if v < 1000 {
        seq!['0']
    } else {
        Seq::empty()
    }) + decimal(v)
}

/// No two numbers are written alike in at least four digits.
pub proof fn decimal4_tells_apart(a: nat, b: nat)
    requires
        decimal4(a) == decimal4(b),
    ensures
        a == b,
{
    decimal4_spells_its_number(a);
    decimal4_spells_its_number(b);
}

proof fn decimal4_spells_its_number(v: nat)
    ensures
        decimal_value(decimal4(v)) == v,
{
    let zeros = if v < 10 {
        seq!['0', '0', '0']
    } else if v < 100 {
        seq!['0', '0']
    } else if v < 1000 {
        seq!['0']
    } else {
        Seq::empty()
    };
    decimal_spells_its_number(zeros, v);
}

/// Appends `v` in decimal, in at least four digits.
pub fn push_decimal4(out: &mut String, v: u64)
    ensures
        final(out)@ == old(out)@ + decimal4(v as nat),
{
    if v < 1000 {
        out.push('0');
    }
    if v < 100 {
        out.push('0');
    }
    if v < 10 {
        out.push('0');
    }
    push_decimal(out, v);
    assert(out@ =~= old(out)@ + decimal4(v as nat));
}

/// Appends the low `n` hexadecimal digits of `v`, in upper case.
pub fn push_hex(out: &mut String, v: u64, n: usize)
    ensures
        final(out)@ == old(out)@ + hex_digits(v as nat, n as nat),
    decreases n,
{
    if n > 0 {
        push_hex(out, v / 16, n - 1);
        let d: u8 = (v % 16) as u8;
        if d < 10 {
            out.push(digit_of(d));
        } else {
            out.push((65u8 + (d - 10)) as char);
        }
    }
    assert(out@ =~= old(out)@ + hex_digits(v as nat, n as nat));
}

/// `bytes` read as UTF-8, each ill-formed piece as U+FFFD.
pub uninterp spec fn utf8_lossy(bytes: Seq<u8>) -> Seq<char>;

/// `bytes` read as UTF-8: as they stand if they are well-formed.
pub open spec fn utf8_text(bytes: Seq<u8>) -> Seq<char> {
    if vstd::utf8::valid_utf8(bytes) {
        vstd::utf8::decode_utf8(bytes)
    } else {
        utf8_lossy(bytes)
    }
}

/// `String::from_utf8_lossy`: the text is a function of the bytes alone, and well-formed bytes
/// are decoded as they stand.
#[verifier::external_body]
pub(crate) fn decode_utf8_lossy(bytes: &[u8]) -> (r: String)
    ensures
        r@ == utf8_lossy(bytes@),
        vstd::utf8::valid_utf8(bytes@) ==> r@ == vstd::utf8::decode_utf8(bytes@),
{
    String::from_utf8_lossy(bytes).into_owned()
}

/// `char::from_u32` gives the character with that scalar value, and none for a surrogate or a
/// value past U+10FFFF.
pub assume_specification[ char::from_u32 ](i: u32) -> (r: Option<char>)
    ensures
        match r {
            Some(c) => c as u32 == i && (i < 0xD800 || 0xE000 <= i <= 0x10_FFFF),
            None => 0xD800 <= i < 0xE000 || i > 0x10_FFFF,
        },
;

/// The UTF-16 code units of one character.
pub open spec fn utf16_of_char(c: char) -> Seq<u16> {
    let v = c as u32;
    if v < 0x1_0000 {
        seq![v as u16]
    } else {
        seq![(0xD800 + (v - 0x1_0000) / 0x400) as u16, (0xDC00 + (v - 0x1_0000) % 0x400) as u16]
    }
}

/// The UTF-16 code units of `s`.
pub open spec fn utf16_of(s: Seq<char>) -> Seq<u16>
    decreases s.len(),
{
    if s.len() == 0 {
        Seq::empty()
    } else {
        utf16_of(s.drop_last()) + utf16_of_char(s.last())
    }
}

/// A lead surrogate followed by a trail surrogate.
pub open spec fn surrogate_pair(u: Seq<u16>) -> bool {
    u.len() > 1 && 0xD800 <= u[0] < 0xDC00 && 0xDC00 <= u[1] < 0xE000
}

/// `u` read as UTF-16, each unpaired surrogate as U+FFFD.
pub open spec fn utf16_lossy(u: Seq<u16>) -> Seq<char>
    decreases u.len(),
{
    if u.len() == 0 {
        Seq::empty()
    } else if surrogate_pair(u) {
        seq![(0x1_0000 + (u[0] - 0xD800) * 0x400 + (u[1] - 0xDC00)) as u32 as char] + utf16_lossy(
            u.subrange(2, u.len() as int),
        )
    } else if 0xD800 <= u[0] < 0xE000 {
        seq!['\u{FFFD}'] + utf16_lossy(u.drop_first())
    } else {
        seq![u[0] as u32 as char] + utf16_lossy(u.drop_first())
    }
}

/// The UTF-16 code units of `s`.
pub fn encode_utf16(s: &str) -> (r: Vec<u16>)
    ensures
        r@ == utf16_of(s@),
{
    let chars = chars_of(s);
    let mut r: Vec<u16> = Vec::new();
    let mut i: usize = 0;
    while i < chars.len()
        invariant
            i <= chars@.len(),
            chars@ == s@,
            r@ == utf16_of(s@.take(i as int)),
        decreases chars@.len() - i,
    {
        let c = chars[i];
        let v: u32 = c as u32;
        proof {
            assert(s@.take(i + 1).drop_last() =~= s@.take(i as int));
            assert(s@.take(i + 1).last() == c);
        }
        if v < 0x1_0000 {
            r.push(v as u16);
        } else {
            r.push((0xD800 + (v - 0x1_0000) / 0x400) as u16);
            r.push((0xDC00 + (v - 0x1_0000) % 0x400) as u16);
        }
        i = i + 1;
        assert(r@ =~= utf16_of(s@.take(i as int)));
    }
    assert(s@.take(i as int) =~= s@);
    r
}

/// `units` read as UTF-16, each unpaired surrogate as U+FFFD.
pub fn decode_utf16_lossy(units: &[u16]) -> (r: String)
    ensures
        r@ == utf16_lossy(units@),
{
    let mut r = String::new();
    let mut i: usize = 0;
    let n: usize = units.len();
    assert(units@.subrange(0, n as int) =~= units@);
    assert(r@ + utf16_lossy(units@) =~= utf16_lossy(units@));
    while i < n
        invariant
            i <= n == units@.len(),
            utf16_lossy(units@) == r@ + utf16_lossy(units@.subrange(i as int, n as int)),
        decreases n - i,
    {
        let ghost rest = units@.subrange(i as int, n as int);
        let ghost before = r@;
        let a: u16 = units[i];
        if i + 1 < n && 0xD800 <= a && a < 0xDC00 && 0xDC00 <= units[i + 1] && units[i + 1] < 0xE000
        {
            assert(surrogate_pair(rest));
            let v: u32 = 0x1_0000 + (a as u32 - 0xD800) * 0x400 + (units[i + 1] as u32 - 0xDC00);
            let c = match char::from_u32(v) {
                Some(c) => c,
                None => '\u{FFFD}',
            };
            r.push(c);
            assert(rest.subrange(2, rest.len() as int) =~= units@.subrange(i + 2, n as int));
            proof {
                vstd::utf8::char_u32_cast(c, v);
            }
            assert(utf16_lossy(rest) == seq![c] + utf16_lossy(rest.subrange(2, rest.len() as int)));
            i = i + 2;
            assert(before + (seq![c] + utf16_lossy(units@.subrange(i as int, n as int))) =~= r@
                + utf16_lossy(units@.subrange(i as int, n as int)));
        } else {
            assert(!surrogate_pair(rest));
            let c = match char::from_u32(a as u32) {
                Some(c) => c,
                None => '\u{FFFD}',
            };
            r.push(c);
            assert(rest.drop_first() =~= units@.subrange(i + 1, n as int));
            assert(utf16_lossy(rest) == seq![c] + utf16_lossy(rest.drop_first())) by {
                if 0xD800 <= a < 0xE000 {
                } else {
                    vstd::utf8::char_u32_cast(c, a as u32);
                }
            }
            i = i + 1;
            assert(before + (seq![c] + utf16_lossy(units@.subrange(i as int, n as int))) =~= r@
                + utf16_lossy(units@.subrange(i as int, n as int)));
        }
    }
    assert(r@ + utf16_lossy(units@.subrange(i as int, n as int)) =~= r@);
    r
}

proof fn lemma_utf16_prepend(c: char, u: Seq<u16>)
    ensures
        utf16_lossy(utf16_of_char(c) + u) == seq![c] + utf16_lossy(u),
{
    let w = utf16_of_char(c) + u;
    let v = c as u32;
    if v < 0x1_0000 {
        assert(w.drop_first() =~= u);
        assert(w[0] == v);
    } else {
        assert(w[0] == 0xD800 + (v - 0x1_0000) / 0x400);
        assert(w[1] == 0xDC00 + (v - 0x1_0000) % 0x400);
        assert(surrogate_pair(w));
        assert(w.subrange(2, w.len() as int) =~= u);
    }
}

proof fn lemma_utf16_split(a: Seq<char>, u: Seq<u16>)
    ensures
        utf16_lossy(utf16_of(a) + u) == a + utf16_lossy(u),
    decreases a.len(),
{
    if a.len() == 0 {
        assert(utf16_of(a) + u =~= u);
        assert(a + utf16_lossy(u) =~= utf16_lossy(u));
    } else {
        let c = a.last();
        lemma_utf16_prepend(c, u);
        lemma_utf16_split(a.drop_last(), utf16_of_char(c) + u);
        assert(utf16_of(a) + u =~= utf16_of(a.drop_last()) + (utf16_of_char(c) + u));
        assert(a.drop_last() + (seq![c] + utf16_lossy(u)) =~= a + utf16_lossy(u));
    }
}

/// Text written as UTF-16 reads back.
pub proof fn utf16_round_trips(s: Seq<char>)
    ensures
        utf16_lossy(utf16_of(s)) == s,
{
    lemma_utf16_split(s, Seq::empty());
    assert(utf16_of(s) + Seq::<u16>::empty() =~= utf16_of(s));
    assert(s + utf16_lossy(Seq::<u16>::empty()) =~= s);
}

/// A number in decimal is made of its digits, the last one that of the ones, each next before it
/// that of ten times as much, and begins with no zero unless it is zero.
pub proof fn digits_stand_by_weight(v: nat, i: int)
    requires
        0 <= i < decimal(v).len(),
    ensures
        ({
            let s = decimal(v);
            let n = s.len();
            &&& s[n - 1 - i] as u32 == 48 + v as int / vstd::arithmetic::power::pow(10, i as nat) % 10
            &&& v == 0 ==> n == 1
            &&& v > 0 ==> s[0] != '0'
        }),
    decreases v,
{
    let s = decimal(v);
    vstd::arithmetic::power::lemma_pow0(10);
    lemma_first_digit(v);
    if i > 0 {
        let t = decimal(v / 10);
        digits_stand_by_weight(v / 10, i - 1);
        let p = vstd::arithmetic::power::pow(10, (i - 1) as nat);
        vstd::arithmetic::power::lemma_pow_positive(10, (i - 1) as nat);
        assert(vstd::arithmetic::power::pow(10, i as nat) == 10 * p) by {
            reveal(vstd::arithmetic::power::pow);
        }
        vstd::arithmetic::div_mod::lemma_div_denominator(v as int, 10, p);
        assert(s[s.len() - 1 - i] == t[t.len() - 1 - (i - 1)]);
    } else {
        assert(v as int / 1 == v);
        assert(s.last() == digit_char(v % 10));
    }
}

proof fn lemma_first_digit(v: nat)
    ensures
        decimal(v).len() >= 1,
        v > 0 ==> decimal(v)[0] != '0',
        v == 0 ==> decimal(v).len() == 1,
        decimal(v).len() == 1 <==> v < 10,
        decimal(v).len() <= 2 <==> v < 100,
        decimal(v).len() <= 3 <==> v < 1000,
        decimal(v).len() <= 4 <==> v < 10000,
    decreases v,
{
    if v >= 10 {
        lemma_first_digit(v / 10);
        assert(decimal(v)[0] == decimal(v / 10)[0]);
    } else if v > 0 {
        assert(decimal(v)[0] as u32 == 48 + v);
    }
}

/// A number below 10000 is filled up with zeros to four digits; any other is written as it is.
pub proof fn short_numbers_are_filled_up(v: nat, i: int)
    requires
        0 <= i < decimal4(v).len(),
    ensures
        v < 10000 ==> decimal4(v).len() == 4,
        v >= 10000 ==> decimal4(v) == decimal(v),
        ({
            let pad = decimal4(v).len() - decimal(v).len();
            &&& i < pad ==> decimal4(v)[i] == '0'
            &&& i >= pad ==> decimal4(v)[i] == decimal(v)[i - pad]
        }),
{
    lemma_first_digit(v);
    if v >= 10000 {
        assert(decimal4(v) =~= decimal(v));
    }
}

/// A number in hexadecimal is made of its digits, the last one that of the ones, each next before
/// it that of sixteen times as much: `0` to `9`, and `A` to `F` for ten to fifteen.
pub proof fn hex_digits_stand_by_weight(v: nat, n: nat, i: int)
    requires
        0 <= i < n,
    ensures
        ({
            let d = v as int / vstd::arithmetic::power::pow(16, i as nat) % 16;
            &&& hex_digits(v, n).len() == n
            &&& hex_digits(v, n)[n - 1 - i] as u32 == (if d < 10 {
                48 + d
            } else {
                55 + d
            })
        }),
    decreases n,
{
    vstd::arithmetic::power::lemma_pow0(16);
    let s = hex_digits(v, n);
    if n > 1 {
        hex_digits_stand_by_weight(v / 16, (n - 1) as nat, if i > 0 {
            i - 1
        } else {
            0
        });
    }
    if i > 0 {
        let t = hex_digits(v / 16, (n - 1) as nat);
        let p = vstd::arithmetic::power::pow(16, (i - 1) as nat);
        vstd::arithmetic::power::lemma_pow_positive(16, (i - 1) as nat);
        assert(vstd::arithmetic::power::pow(16, i as nat) == 16 * p) by {
            reveal(vstd::arithmetic::power::pow);
        }
        vstd::arithmetic::div_mod::lemma_div_denominator(v as int, 16, p);
        assert(s[n - 1 - i] == t[n - 2 - (i - 1)]);
    } else {
        assert(v as int / 1 == v);
        assert(hex_digits(v / 16, (n - 1) as nat).len() == n - 1);
        assert(s[n - 1] == s.last());
    }
}

/// A character below 0x1_0000 is one UTF-16 unit, itself. Any other is a pair of units, the first
/// from 0xD800 and the second from 0xDC00 on, that hold ten bits each of what it is above 0x1_0000.
pub proof fn high_characters_take_a_pair(c: char)
    ensures
        ({
            let u = utf16_of_char(c);
            let v = c as u32;
            &&& v < 0x1_0000 ==> u.len() == 1 && u[0] == v
            &&& v >= 0x1_0000 ==> {
                &&& u.len() == 2
                &&& 0xD800 <= u[0] < 0xDC00
                &&& 0xDC00 <= u[1] < 0xE000
                &&& v == 0x1_0000 + (u[0] - 0xD800) * 0x400 + (u[1] - 0xDC00)
            }
        }),
{
}

/// The units of a text are those of its characters in their order.
pub proof fn units_follow_the_characters(a: Seq<char>, b: Seq<char>, c: char)
    ensures
        utf16_of(a + b) == utf16_of(a) + utf16_of(b),
        utf16_of(seq![c]) == utf16_of_char(c),
        utf16_of(Seq::empty()).len() == 0,
    decreases b.len(),
{
    let one = seq![c];
    assert(one.drop_last() =~= Seq::empty());
    assert(utf16_of(one.drop_last()).len() == 0);
    assert(utf16_of(one) =~= utf16_of_char(one.last()));
    if b.len() == 0 {
        assert(a + b =~= a);
        assert(utf16_of(a) + utf16_of(b) =~= utf16_of(a));
    } else {
        units_follow_the_characters(a, b.drop_last(), c);
        assert((a + b).drop_last() =~= a + b.drop_last());
        assert((a + b).last() == b.last());
        assert(utf16_of(a + b) =~= utf16_of(a) + utf16_of(b));
    }
}

/// Units are read one by one: one that is no surrogate is the character of that number, and a
/// surrogate that is not the first or second of a pair is U+FFFD.
pub proof fn units_are_read_one_by_one(u: Seq<u16>)
    ensures
        utf16_lossy(Seq::empty()).len() == 0,
        u.len() > 0 && !(0xD800 <= u[0] < 0xE000) ==> {
            &&& utf16_lossy(u).len() > 0
            &&& utf16_lossy(u)[0] as u32 == u[0]
            &&& utf16_lossy(u).drop_first() == utf16_lossy(u.drop_first())
        },
        u.len() > 0 && (0xDC00 <= u[0] < 0xE000 || (0xD800 <= u[0] < 0xDC00 && (u.len() == 1 || !(
        0xDC00 <= u[1] < 0xE000)))) ==> {
            &&& utf16_lossy(u).len() > 0
            &&& utf16_lossy(u)[0] as u32 == 0xFFFD
            &&& utf16_lossy(u).drop_first() == utf16_lossy(u.drop_first())
        },
        u.len() > 1 && 0xD800 <= u[0] < 0xDC00 && 0xDC00 <= u[1] < 0xE000 ==> {
            &&& utf16_lossy(u).len() > 0
            &&& utf16_lossy(u)[0] as u32 == 0x1_0000 + (u[0] - 0xD800) * 0x400 + (u[1] - 0xDC00)
            &&& utf16_lossy(u).drop_first() == utf16_lossy(u.drop_first().drop_first())
        },
{
    if u.len() > 0 {
        let rest = utf16_lossy(u.drop_first());
        assert((seq!['\u{FFFD}'] + rest).drop_first() =~= rest);
        assert((seq![u[0] as u32 as char] + rest).drop_first() =~= rest);
        if u.len() > 1 {
            assert(u.drop_first().drop_first() =~= u.subrange(2, u.len() as int));
            let two = utf16_lossy(u.subrange(2, u.len() as int));
            let c = (0x1_0000 + (u[0] - 0xD800) * 0x400 + (u[1] - 0xDC00)) as u32 as char;
            assert((seq![c] + two).drop_first() =~= two);
        }
    }
}

} // verus!
