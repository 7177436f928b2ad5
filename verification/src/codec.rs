//! The mathematical model of the two text encodings the console adapter
//! translates between, together with the executable transcoding routines.
//!
//! A piece of text is modelled as a sequence of Unicode scalar values
//! (`Seq<int>`, each in range and not a surrogate).  `utf8_encoding` and
//! `utf16_encoding` map such a sequence to its byte, respectively code-unit,
//! form; `utf8_prefix` and `utf16_parse` are the deterministic greedy
//! inverses.  All executable routines are specified against these functions.

use vstd::arithmetic::div_mod::{
    lemma_breakdown, lemma_div_denominator, lemma_div_is_ordered, lemma_div_pos_is_pos,
    lemma_fundamental_div_mod, lemma_fundamental_div_mod_converse, lemma_mod_bound,
    lemma_multiply_divide_lt,
};
use vstd::prelude::*;

verus! {

// ---------------------------------------------------------------------------
// Scalar values and surrogates
// ---------------------------------------------------------------------------

/// A leading (high) surrogate code unit.
pub open spec fn is_high_surrogate(u: u16) -> bool {
    0xD800 <= u <= 0xDBFF
}

/// A trailing (low) surrogate code unit.
pub open spec fn is_low_surrogate(u: u16) -> bool {
    0xDC00 <= u <= 0xDFFF
}

/// Any surrogate code unit.
pub open spec fn is_surrogate(u: u16) -> bool {
    0xD800 <= u <= 0xDFFF
}

/// A Unicode scalar value: in range, and not a surrogate.
pub open spec fn is_scalar_value(c: int) -> bool {
    0 <= c < 0x11_0000 && !(0xD800 <= c <= 0xDFFF)
}

/// Every element of the sequence is a scalar value.
pub open spec fn all_scalar_values(cs: Seq<int>) -> bool {
    forall|i: int| 0 <= i < cs.len() ==> is_scalar_value(#[trigger] cs[i])
}

/// The scalar value encoded by a surrogate pair.
pub open spec fn pair_value(h: u16, l: u16) -> int {
    0x1_0000 + (h - 0xD800) * 0x400 + (l - 0xDC00)
}

// ---------------------------------------------------------------------------
// UTF-8, encoding direction
// ---------------------------------------------------------------------------

/// Number of bytes UTF-8 spends on one scalar value.
pub open spec fn utf8_len(c: int) -> int {
    if c < 0x80 {
        1
    } else if c < 0x800 {
        2
    } else if c < 0x1_0000 {
        3
    } else {
        4
    }
}

/// The UTF-8 encoding of one scalar value.
pub open spec fn utf8_of(c: int) -> Seq<u8>
    recommends
        is_scalar_value(c),
{
    if c < 0x80 {
        seq![c as u8]
    } else if c < 0x800 {
        seq![(0xC0 + c / 0x40) as u8, (0x80 + c % 0x40) as u8]
    } else if c < 0x1_0000 {
        seq![
            (0xE0 + c / 0x1000) as u8,
            (0x80 + (c / 0x40) % 0x40) as u8,
            (0x80 + c % 0x40) as u8,
        ]
    } else {
        seq![
            (0xF0 + c / 0x4_0000) as u8,
            (0x80 + (c / 0x1000) % 0x40) as u8,
            (0x80 + (c / 0x40) % 0x40) as u8,
            (0x80 + c % 0x40) as u8,
        ]
    }
}

/// The UTF-8 encoding of a sequence of scalar values.
pub open spec fn utf8_encoding(cs: Seq<int>) -> Seq<u8>
    decreases cs.len(),
{
    if cs.len() == 0 {
        Seq::empty()
    } else {
        utf8_of(cs[0]) + utf8_encoding(cs.skip(1))
    }
}

// ---------------------------------------------------------------------------
// UTF-16, encoding direction
// ---------------------------------------------------------------------------

/// Number of UTF-16 code units spent on one scalar value.
pub open spec fn utf16_len(c: int) -> int {
    if c < 0x1_0000 {
        1
    } else {
        2
    }
}

/// The UTF-16 encoding of one scalar value.
pub open spec fn utf16_of(c: int) -> Seq<u16>
    recommends
        is_scalar_value(c),
{
    if c < 0x1_0000 {
        seq![c as u16]
    } else {
        seq![
            (0xD800 + (c - 0x1_0000) / 0x400) as u16,
            (0xDC00 + (c - 0x1_0000) % 0x400) as u16,
        ]
    }
}

/// The UTF-16 encoding of a sequence of scalar values.
pub open spec fn utf16_encoding(cs: Seq<int>) -> Seq<u16>
    decreases cs.len(),
{
    if cs.len() == 0 {
        Seq::empty()
    } else {
        utf16_of(cs[0]) + utf16_encoding(cs.skip(1))
    }
}

// ---------------------------------------------------------------------------
// UTF-16, decoding direction
// ---------------------------------------------------------------------------

/// The scalar values encoded by a well-formed UTF-16 code-unit sequence,
/// or `None` if the sequence contains an unpaired surrogate.  Parsing is
/// greedy from the front, which is the one way a UTF-16 sequence can be
/// read: a non-surrogate unit stands alone, a high surrogate must be
/// followed by a low one.
pub open spec fn utf16_parse(us: Seq<u16>) -> Option<Seq<int>>
    decreases us.len(),
{
    if us.len() == 0 {
        Some(Seq::empty())
    } else if !is_surrogate(us[0]) {
        match utf16_parse(us.skip(1)) {
            Some(rest) => Some(seq![us[0] as int] + rest),
            None => None,
        }
    } else if is_high_surrogate(us[0]) && us.len() >= 2 && is_low_surrogate(us[1]) {
        match utf16_parse(us.skip(2)) {
            Some(rest) => Some(seq![pair_value(us[0], us[1])] + rest),
            None => None,
        }
    } else {
        None
    }
}

// ---------------------------------------------------------------------------
// UTF-8, decoding direction
// ---------------------------------------------------------------------------

/// Is `b` a UTF-8 continuation byte?
pub open spec fn is_continuation(b: u8) -> bool {
    0x80 <= b <= 0xBF
}

/// Reads the first scalar value off a byte sequence: `Some((c, n))` means
/// the first `n` bytes are the UTF-8 encoding of `c`; `None` means the
/// sequence does not begin with a well-formed character (overlong forms,
/// surrogates and out-of-range values are malformed).
pub open spec fn utf8_step(bs: Seq<u8>) -> Option<(int, int)> {
    if bs.len() >= 1 && bs[0] < 0x80 {
        Some((bs[0] as int, 1))
    } else if bs.len() >= 2 && 0xC2 <= bs[0] <= 0xDF && is_continuation(bs[1]) {
        Some(((bs[0] - 0xC0) * 0x40 + (bs[1] - 0x80), 2))
    } else if bs.len() >= 3 && 0xE0 <= bs[0] <= 0xEF && is_continuation(bs[1]) && is_continuation(
        bs[2],
    ) {
        let c = (bs[0] - 0xE0) * 0x1000 + (bs[1] - 0x80) * 0x40 + (bs[2] - 0x80);
        if 0x800 <= c && !(0xD800 <= c <= 0xDFFF) {
            Some((c, 3))
        } else {
            None
        }
    } else if bs.len() >= 4 && 0xF0 <= bs[0] <= 0xF4 && is_continuation(bs[1]) && is_continuation(
        bs[2],
    ) && is_continuation(bs[3]) {
        let c = (bs[0] - 0xF0) * 0x4_0000 + (bs[1] - 0x80) * 0x1000 + (bs[2] - 0x80) * 0x40 + (
        bs[3] - 0x80);
        if 0x1_0000 <= c < 0x11_0000 {
            Some((c, 4))
        } else {
            None
        }
    } else {
        None
    }
}

/// Greedy parse of the longest well-formed UTF-8 prefix: the scalar values
/// it encodes, and its length in bytes.
pub open spec fn utf8_prefix(bs: Seq<u8>) -> (Seq<int>, int)
    decreases bs.len(),
{
    match utf8_step(bs) {
        Some((c, n)) => {
            let (rest, k) = utf8_prefix(bs.skip(n));
            (seq![c] + rest, n + k)
        },
        None => (Seq::empty(), 0),
    }
}

// ---------------------------------------------------------------------------
// Per-unit byte accounting for partial console writes
// ---------------------------------------------------------------------------

/// UTF-8 bytes attributed to a single UTF-16 code unit when a write is cut
/// short mid-buffer.  A high surrogate carries the first three bytes of its
/// four-byte character, the pairing low surrogate the fourth, so the two
/// always sum to four.
pub open spec fn unit_utf8_len(u: u16) -> int {
    if u <= 0x7F {
        1
    } else if u <= 0x7FF {
        2
    } else if is_low_surrogate(u) {
        1
    } else {
        3
    }
}

/// Total UTF-8 bytes attributed to a code-unit sequence, unit by unit.
pub open spec fn units_utf8_len(us: Seq<u16>) -> int
    decreases us.len(),
{
    if us.len() == 0 {
        0
    } else {
        unit_utf8_len(us[0]) + units_utf8_len(us.skip(1))
    }
}

// ---------------------------------------------------------------------------
// One scalar value, UTF-16 side
// ---------------------------------------------------------------------------

/// A one-element sequence encodes to the encoding of its element.
proof fn lemma_utf16_encoding_singleton(c: int)
    ensures
        utf16_encoding(seq![c]) =~= utf16_of(c),
{
    assert(seq![c].skip(1) =~= Seq::<int>::empty());
    assert(utf16_encoding(Seq::<int>::empty()) =~= Seq::<u16>::empty());
}

/// A one-element sequence encodes to the encoding of its element.
proof fn lemma_utf8_encoding_singleton(c: int)
    ensures
        utf8_encoding(seq![c]) =~= utf8_of(c),
{
    assert(seq![c].skip(1) =~= Seq::<int>::empty());
    assert(utf8_encoding(Seq::<int>::empty()) =~= Seq::<u8>::empty());
}

/// A supplementary-plane scalar value is a high surrogate followed by a
/// low one, and `pair_value` recovers it from them.
proof fn lemma_utf16_of_pair(c: int)
    requires
        0x1_0000 <= c < 0x11_0000,
    ensures
        utf16_of(c).len() == 2,
        is_high_surrogate(utf16_of(c)[0]),
        is_low_surrogate(utf16_of(c)[1]),
        pair_value(utf16_of(c)[0], utf16_of(c)[1]) == c,
{
    let x = c - 0x1_0000;
    let q = x / 0x400;
    let r = x % 0x400;
    lemma_fundamental_div_mod(x, 0x400);
    lemma_mod_bound(x, 0x400);
    lemma_div_pos_is_pos(x, 0x400);
    lemma_multiply_divide_lt(x, 0x400, 0x400);
    assert(0 <= q < 0x400);
    assert(0 <= r < 0x400);
    assert(utf16_of(c)[0] == (0xD800 + q) as u16);
    assert((0xD800 + q) as u16 as int == 0xD800 + q);
    assert((0xDC00 + r) as u16 as int == 0xDC00 + r);
}

/// Reading a high/low surrogate pair back: the value is in the
/// supplementary planes and re-encodes to the very same two units.
proof fn lemma_utf16_unpair(h: u16, l: u16)
    requires
        is_high_surrogate(h),
        is_low_surrogate(l),
    ensures
        0x1_0000 <= pair_value(h, l) < 0x11_0000,
        is_scalar_value(pair_value(h, l)),
        utf16_of(pair_value(h, l)) =~= seq![h, l],
{
    let c = pair_value(h, l);
    let x = c - 0x1_0000;
    lemma_fundamental_div_mod_converse(x, 0x400, h - 0xD800, l - 0xDC00);
    assert(x / 0x400 == h - 0xD800);
    assert(x % 0x400 == l - 0xDC00);
    assert((0xD800 + x / 0x400) as u16 == h);
    assert((0xDC00 + x % 0x400) as u16 == l);
}

// ---------------------------------------------------------------------------
// One scalar value, UTF-8 side
// ---------------------------------------------------------------------------

/// The encoding of one scalar value has exactly `utf8_len` bytes.
proof fn lemma_utf8_of_len(c: int)
    ensures
        utf8_of(c).len() == utf8_len(c),
{
}

/// The encoding of one scalar value has exactly `utf16_len` units.
proof fn lemma_utf16_of_len(c: int)
    ensures
        utf16_of(c).len() == utf16_len(c),
{
}

/// Shape of a two-byte UTF-8 character, and how the value is read back.
proof fn lemma_utf8_of_2(c: int)
    requires
        0x80 <= c < 0x800,
    ensures
        utf8_of(c).len() == 2,
        0xC2 <= utf8_of(c)[0] <= 0xDF,
        is_continuation(utf8_of(c)[1]),
        (utf8_of(c)[0] - 0xC0) * 0x40 + (utf8_of(c)[1] - 0x80) == c,
{
    let q = c / 0x40;
    let r = c % 0x40;
    lemma_fundamental_div_mod(c, 0x40);
    lemma_mod_bound(c, 0x40);
    lemma_multiply_divide_lt(c, 0x40, 0x20);
    lemma_div_is_ordered(0x80, c, 0x40);
    assert(0x80int / 0x40 == 2);
    assert(2 <= q < 0x20);
    assert((0xC0 + q) as u8 as int == 0xC0 + q);
    assert((0x80 + r) as u8 as int == 0x80 + r);
}

/// Two bytes in the two-byte shape decode to the value that re-encodes
/// to exactly those bytes.
proof fn lemma_utf8_unstep_2(b0: u8, b1: u8)
    requires
        0xC2 <= b0 <= 0xDF,
        is_continuation(b1),
    ensures
        ({
            let c = (b0 - 0xC0) * 0x40 + (b1 - 0x80);
            0x80 <= c < 0x800 && utf8_of(c) =~= seq![b0, b1]
        }),
{
    let c = (b0 - 0xC0) * 0x40 + (b1 - 0x80);
    lemma_fundamental_div_mod_converse(c, 0x40, b0 - 0xC0, b1 - 0x80);
    assert(c / 0x40 == b0 - 0xC0);
    assert(c % 0x40 == b1 - 0x80);
    assert((0xC0 + c / 0x40) as u8 == b0);
    assert((0x80 + c % 0x40) as u8 == b1);
}

/// Shape of a three-byte UTF-8 character, and how the value is read back.
proof fn lemma_utf8_of_3(c: int)
    requires
        0x800 <= c < 0x1_0000,
    ensures
        utf8_of(c).len() == 3,
        0xE0 <= utf8_of(c)[0] <= 0xEF,
        is_continuation(utf8_of(c)[1]),
        is_continuation(utf8_of(c)[2]),
        (utf8_of(c)[0] - 0xE0) * 0x1000 + (utf8_of(c)[1] - 0x80) * 0x40 + (utf8_of(c)[2] - 0x80)
            == c,
{
    let q = c / 0x1000;
    let m = (c / 0x40) % 0x40;
    let r = c % 0x40;
    lemma_fundamental_div_mod(c, 0x40);
    lemma_mod_bound(c, 0x40);
    lemma_div_pos_is_pos(c, 0x40);
    lemma_fundamental_div_mod(c / 0x40, 0x40);
    lemma_mod_bound(c / 0x40, 0x40);
    lemma_div_denominator(c, 0x40, 0x40);
    assert((c / 0x40) / 0x40 == c / 0x1000);
    lemma_div_pos_is_pos(c, 0x1000);
    lemma_multiply_divide_lt(c, 0x1000, 0x10);
    assert(c == 0x1000 * q + 0x40 * m + r);
    assert(0 <= q < 0x10);
    assert((0xE0 + q) as u8 as int == 0xE0 + q);
    assert((0x80 + m) as u8 as int == 0x80 + m);
    assert((0x80 + r) as u8 as int == 0x80 + r);
}

/// Three bytes in the three-byte shape decode to a value below 0x10000
/// whose digit fields are exactly those bytes.
proof fn lemma_utf8_unstep_3(b0: u8, b1: u8, b2: u8)
    requires
        0xE0 <= b0 <= 0xEF,
        is_continuation(b1),
        is_continuation(b2),
    ensures
        ({
            let c = (b0 - 0xE0) * 0x1000 + (b1 - 0x80) * 0x40 + (b2 - 0x80);
            &&& 0 <= c < 0x1_0000
            &&& c / 0x1000 == b0 - 0xE0
            &&& (c / 0x40) % 0x40 == b1 - 0x80
            &&& c % 0x40 == b2 - 0x80
        }),
{
    let c = (b0 - 0xE0) * 0x1000 + (b1 - 0x80) * 0x40 + (b2 - 0x80);
    lemma_fundamental_div_mod_converse(c, 0x1000, b0 - 0xE0, (b1 - 0x80) * 0x40 + (b2 - 0x80));
    lemma_fundamental_div_mod_converse(c, 0x40, (b0 - 0xE0) * 0x40 + (b1 - 0x80), b2 - 0x80);
    lemma_fundamental_div_mod_converse(
        (b0 - 0xE0) * 0x40 + (b1 - 0x80),
        0x40,
        b0 - 0xE0,
        b1 - 0x80,
    );
}

/// Shape of a four-byte UTF-8 character, and how the value is read back.
proof fn lemma_utf8_of_4(c: int)
    requires
        0x1_0000 <= c < 0x11_0000,
    ensures
        utf8_of(c).len() == 4,
        0xF0 <= utf8_of(c)[0] <= 0xF4,
        is_continuation(utf8_of(c)[1]),
        is_continuation(utf8_of(c)[2]),
        is_continuation(utf8_of(c)[3]),
        (utf8_of(c)[0] - 0xF0) * 0x4_0000 + (utf8_of(c)[1] - 0x80) * 0x1000 + (utf8_of(c)[2]
            - 0x80) * 0x40 + (utf8_of(c)[3] - 0x80) == c,
{
    let q = c / 0x4_0000;
    let m1 = (c / 0x1000) % 0x40;
    let m2 = (c / 0x40) % 0x40;
    let r = c % 0x40;
    lemma_fundamental_div_mod(c, 0x1000);
    lemma_mod_bound(c, 0x1000);
    lemma_div_pos_is_pos(c, 0x1000);
    lemma_fundamental_div_mod(c / 0x1000, 0x40);
    lemma_mod_bound(c / 0x1000, 0x40);
    lemma_div_denominator(c, 0x1000, 0x40);
    assert((c / 0x1000) / 0x40 == c / 0x4_0000);
    lemma_div_pos_is_pos(c, 0x4_0000);
    lemma_multiply_divide_lt(c, 0x4_0000, 5);
    lemma_breakdown(c, 0x40, 0x40);
    assert(c % 0x1000 == 0x40 * m2 + r);
    lemma_mod_bound(c, 0x40);
    lemma_mod_bound(c / 0x40, 0x40);
    assert(c == 0x4_0000 * q + 0x1000 * m1 + 0x40 * m2 + r);
    assert(0 <= q < 5);
    assert((0xF0 + q) as u8 as int == 0xF0 + q);
    assert((0x80 + m1) as u8 as int == 0x80 + m1);
    assert((0x80 + m2) as u8 as int == 0x80 + m2);
    assert((0x80 + r) as u8 as int == 0x80 + r);
}

/// Four bytes in the four-byte shape decode to a value whose digit
/// fields are exactly those bytes.
proof fn lemma_utf8_unstep_4(b0: u8, b1: u8, b2: u8, b3: u8)
    requires
        0xF0 <= b0 <= 0xF4,
        is_continuation(b1),
        is_continuation(b2),
        is_continuation(b3),
    ensures
        ({
            let c = (b0 - 0xF0) * 0x4_0000 + (b1 - 0x80) * 0x1000 + (b2 - 0x80) * 0x40 + (b3
                - 0x80);
            &&& 0 <= c < 0x14_0000
            &&& c / 0x4_0000 == b0 - 0xF0
            &&& (c / 0x1000) % 0x40 == b1 - 0x80
            &&& (c / 0x40) % 0x40 == b2 - 0x80
            &&& c % 0x40 == b3 - 0x80
        }),
{
    let c = (b0 - 0xF0) * 0x4_0000 + (b1 - 0x80) * 0x1000 + (b2 - 0x80) * 0x40 + (b3 - 0x80);
    lemma_fundamental_div_mod_converse(
        c,
        0x4_0000,
        b0 - 0xF0,
        (b1 - 0x80) * 0x1000 + (b2 - 0x80) * 0x40 + (b3 - 0x80),
    );
    lemma_fundamental_div_mod_converse(
        c,
        0x1000,
        (b0 - 0xF0) * 0x40 + (b1 - 0x80),
        (b2 - 0x80) * 0x40 + (b3 - 0x80),
    );
    lemma_fundamental_div_mod_converse(
        (b0 - 0xF0) * 0x40 + (b1 - 0x80),
        0x40,
        b0 - 0xF0,
        b1 - 0x80,
    );
    lemma_fundamental_div_mod_converse(
        c,
        0x40,
        (b0 - 0xF0) * 0x1000 + (b1 - 0x80) * 0x40 + (b2 - 0x80),
        b3 - 0x80,
    );
    lemma_fundamental_div_mod_converse(
        (b0 - 0xF0) * 0x1000 + (b1 - 0x80) * 0x40 + (b2 - 0x80),
        0x40,
        (b0 - 0xF0) * 0x40 + (b1 - 0x80),
        b2 - 0x80,
    );
}

// ---------------------------------------------------------------------------
// Concatenation
// ---------------------------------------------------------------------------

/// UTF-8 encoding distributes over concatenation.
pub proof fn lemma_utf8_encoding_append(a: Seq<int>, b: Seq<int>)
    ensures
        utf8_encoding(a + b) =~= utf8_encoding(a) + utf8_encoding(b),
    decreases a.len(),
{
    if a.len() == 0 {
        assert(a + b =~= b);
        assert(utf8_encoding(a) =~= Seq::<u8>::empty());
    } else {
        assert((a + b).skip(1) =~= a.skip(1) + b);
        assert((a + b)[0] == a[0]);
        lemma_utf8_encoding_append(a.skip(1), b);
    }
}

/// UTF-16 encoding distributes over concatenation.
pub proof fn lemma_utf16_encoding_append(a: Seq<int>, b: Seq<int>)
    ensures
        utf16_encoding(a + b) =~= utf16_encoding(a) + utf16_encoding(b),
    decreases a.len(),
{
    if a.len() == 0 {
        assert(a + b =~= b);
        assert(utf16_encoding(a) =~= Seq::<u16>::empty());
    } else {
        assert((a + b).skip(1) =~= a.skip(1) + b);
        assert((a + b)[0] == a[0]);
        lemma_utf16_encoding_append(a.skip(1), b);
    }
}

/// Per-unit byte accounting distributes over concatenation.
pub proof fn lemma_units_utf8_len_append(a: Seq<u16>, b: Seq<u16>)
    ensures
        units_utf8_len(a + b) == units_utf8_len(a) + units_utf8_len(b),
    decreases a.len(),
{
    if a.len() == 0 {
        assert(a + b =~= b);
    } else {
        assert((a + b).skip(1) =~= a.skip(1) + b);
        assert((a + b)[0] == a[0]);
        lemma_units_utf8_len_append(a.skip(1), b);
    }
}

// ---------------------------------------------------------------------------
// UTF-16 round trips
// ---------------------------------------------------------------------------

/// Encoding scalar values to UTF-16 and parsing the units back returns
/// the original sequence.  In particular no well-formed write can be
/// mangled by the code-unit layer itself.
pub proof fn lemma_utf16_encode_parse(cs: Seq<int>)
    requires
        all_scalar_values(cs),
    ensures
        utf16_parse(utf16_encoding(cs)) == Some(cs),
    decreases cs.len(),
{
    if cs.len() == 0 {
        assert(utf16_encoding(cs) =~= Seq::<u16>::empty());
        assert(utf16_parse(utf16_encoding(cs)) == Some(Seq::<int>::empty()));
        assert(cs =~= Seq::<int>::empty());
    } else {
        let c = cs[0];
        assert(is_scalar_value(c));
        let us = utf16_encoding(cs);
        let rest = utf16_encoding(cs.skip(1));
        assert(all_scalar_values(cs.skip(1)));
        lemma_utf16_encode_parse(cs.skip(1));
        if c < 0x1_0000 {
            assert(us =~= seq![c as u16] + rest);
            assert(us[0] == c as u16);
            assert(c as u16 as int == c);
            assert(!is_surrogate(us[0]));
            assert(us.skip(1) =~= rest);
            assert(utf16_parse(us) == Some(seq![c] + cs.skip(1)));
            assert(seq![c] + cs.skip(1) =~= cs);
        } else {
            lemma_utf16_of_pair(c);
            assert(us =~= utf16_of(c) + rest);
            assert(us[0] == utf16_of(c)[0]);
            assert(us.len() >= 2);
            assert(us[1] == utf16_of(c)[1]);
            assert(is_high_surrogate(us[0]));
            assert(is_low_surrogate(us[1]));
            assert(us.skip(2) =~= rest);
            assert(pair_value(us[0], us[1]) == c);
            assert(utf16_parse(us) == Some(seq![c] + cs.skip(1)));
            assert(seq![c] + cs.skip(1) =~= cs);
        }
    }
}

/// Parsing a well-formed UTF-16 sequence yields scalar values whose
/// encoding is the sequence itself, of no greater length.
pub proof fn lemma_utf16_parse_encode(us: Seq<u16>)
    requires
        utf16_parse(us) is Some,
    ensures
        all_scalar_values(utf16_parse(us)->0),
        utf16_encoding(utf16_parse(us)->0) =~= us,
        utf16_parse(us)->0.len() <= us.len(),
    decreases us.len(),
{
    let cs = utf16_parse(us)->0;
    if us.len() == 0 {
        assert(utf16_encoding(cs) =~= us);
    } else if !is_surrogate(us[0]) {
        lemma_utf16_parse_encode(us.skip(1));
        let rest = utf16_parse(us.skip(1))->0;
        assert(cs == seq![us[0] as int] + rest);
        assert(is_scalar_value(us[0] as int));
        assert(all_scalar_values(cs)) by {
            assert(forall|i: int|
                0 <= i < cs.len() ==> #[trigger] cs[i] == if i == 0 {
                    us[0] as int
                } else {
                    rest[i - 1]
                });
        }
        lemma_utf16_encoding_append(seq![us[0] as int], rest);
        lemma_utf16_encoding_singleton(us[0] as int);
        assert(utf16_of(us[0] as int) =~= seq![us[0]]);
        assert(utf16_encoding(cs) =~= seq![us[0]] + us.skip(1));
        assert(seq![us[0]] + us.skip(1) =~= us);
    } else {
        assert(is_high_surrogate(us[0]) && us.len() >= 2 && is_low_surrogate(us[1]));
        lemma_utf16_parse_encode(us.skip(2));
        let rest = utf16_parse(us.skip(2))->0;
        let c = pair_value(us[0], us[1]);
        lemma_utf16_unpair(us[0], us[1]);
        assert(cs == seq![c] + rest);
        assert(all_scalar_values(cs)) by {
            assert(forall|i: int|
                0 <= i < cs.len() ==> #[trigger] cs[i] == if i == 0 {
                    c
                } else {
                    rest[i - 1]
                });
        }
        lemma_utf16_encoding_append(seq![c], rest);
        lemma_utf16_encoding_singleton(c);
        assert(utf16_encoding(cs) =~= seq![us[0], us[1]] + us.skip(2));
        assert(seq![us[0], us[1]] + us.skip(2) =~= us);
    }
}

// ---------------------------------------------------------------------------
// UTF-8 round trips
// ---------------------------------------------------------------------------

/// `utf8_step` reads exactly one encoded scalar value off the front of a
/// byte sequence, whatever follows it.
proof fn lemma_utf8_step_of(c: int, rest: Seq<u8>)
    requires
        is_scalar_value(c),
    ensures
        utf8_of(c).len() == utf8_len(c),
        utf8_step(utf8_of(c) + rest) == Some((c, utf8_len(c))),
{
    let bs = utf8_of(c) + rest;
    if c < 0x80 {
        assert(bs[0] == utf8_of(c)[0]);
        assert(c as u8 as int == c);
        assert(bs[0] < 0x80);
    } else if c < 0x800 {
        lemma_utf8_of_2(c);
        assert(bs[0] == utf8_of(c)[0]);
        assert(bs[1] == utf8_of(c)[1]);
        assert(!(bs[0] < 0x80));
        assert(utf8_step(bs) == Some(((bs[0] - 0xC0) * 0x40 + (bs[1] - 0x80), 2int)));
    } else if c < 0x1_0000 {
        lemma_utf8_of_3(c);
        assert(bs[0] == utf8_of(c)[0]);
        assert(bs[1] == utf8_of(c)[1]);
        assert(bs[2] == utf8_of(c)[2]);
        assert(!(bs[0] < 0x80));
        assert(!(0xC2 <= bs[0] <= 0xDF));
        assert((bs[0] - 0xE0) * 0x1000 + (bs[1] - 0x80) * 0x40 + (bs[2] - 0x80) == c);
        assert(utf8_step(bs) == Some((c, 3int)));
    } else {
        lemma_utf8_of_4(c);
        assert(bs[0] == utf8_of(c)[0]);
        assert(bs[1] == utf8_of(c)[1]);
        assert(bs[2] == utf8_of(c)[2]);
        assert(bs[3] == utf8_of(c)[3]);
        assert(!(bs[0] < 0x80));
        assert(!(0xC2 <= bs[0] <= 0xDF));
        assert(!(0xE0 <= bs[0] <= 0xEF));
        assert((bs[0] - 0xF0) * 0x4_0000 + (bs[1] - 0x80) * 0x1000 + (bs[2] - 0x80) * 0x40 + (bs[3]
            - 0x80) == c);
        assert(utf8_step(bs) == Some((c, 4int)));
    }
}

/// Whatever `utf8_step` accepts is a scalar value whose encoding is
/// exactly the bytes consumed.
proof fn lemma_utf8_step_valid(bs: Seq<u8>)
    requires
        utf8_step(bs) is Some,
    ensures
        ({
            let (c, n) = utf8_step(bs)->0;
            &&& is_scalar_value(c)
            &&& utf8_len(c) == n
            &&& 1 <= n <= bs.len()
            &&& utf8_of(c) =~= bs.take(n)
        }),
{
    let (c, n) = utf8_step(bs)->0;
    if bs.len() >= 1 && bs[0] < 0x80 {
        assert(utf8_of(c) =~= seq![bs[0]]);
        assert(bs.take(1) =~= seq![bs[0]]);
    } else if bs.len() >= 2 && 0xC2 <= bs[0] <= 0xDF && is_continuation(bs[1]) {
        lemma_utf8_unstep_2(bs[0], bs[1]);
        assert(bs.take(2) =~= seq![bs[0], bs[1]]);
    } else if bs.len() >= 3 && 0xE0 <= bs[0] <= 0xEF && is_continuation(bs[1]) && is_continuation(
        bs[2],
    ) {
        lemma_utf8_unstep_3(bs[0], bs[1], bs[2]);
        assert(0x800 <= c < 0x1_0000);
        assert(utf8_of(c) =~= seq![bs[0], bs[1], bs[2]]) by {
            assert((0xE0 + c / 0x1000) as u8 == bs[0]);
            assert((0x80 + (c / 0x40) % 0x40) as u8 == bs[1]);
            assert((0x80 + c % 0x40) as u8 == bs[2]);
        }
        assert(bs.take(3) =~= seq![bs[0], bs[1], bs[2]]);
    } else {
        lemma_utf8_unstep_4(bs[0], bs[1], bs[2], bs[3]);
        assert(0x1_0000 <= c < 0x11_0000);
        assert(utf8_of(c) =~= seq![bs[0], bs[1], bs[2], bs[3]]) by {
            assert((0xF0 + c / 0x4_0000) as u8 == bs[0]);
            assert((0x80 + (c / 0x1000) % 0x40) as u8 == bs[1]);
            assert((0x80 + (c / 0x40) % 0x40) as u8 == bs[2]);
            assert((0x80 + c % 0x40) as u8 == bs[3]);
        }
        assert(bs.take(4) =~= seq![bs[0], bs[1], bs[2], bs[3]]);
    }
}

/// Round trip, write side: the greedy parse of an encoding of scalar
/// values consumes every byte and returns those values.
pub proof fn lemma_utf8_encode_parse(cs: Seq<int>)
    requires
        all_scalar_values(cs),
    ensures
        utf8_prefix(utf8_encoding(cs)).0 == cs,
        utf8_prefix(utf8_encoding(cs)).1 == utf8_encoding(cs).len(),
    decreases cs.len(),
{
    if cs.len() == 0 {
        assert(utf8_encoding(cs) =~= Seq::<u8>::empty());
        assert(utf8_step(Seq::<u8>::empty()) is None);
        assert(utf8_prefix(utf8_encoding(cs)).0 =~= cs);
    } else {
        let c = cs[0];
        let bs = utf8_encoding(cs);
        let rest = utf8_encoding(cs.skip(1));
        lemma_utf8_step_of(c, rest);
        assert(bs == utf8_of(c) + rest);
        let n = utf8_len(c);
        assert(bs.skip(n) =~= rest);
        assert(all_scalar_values(cs.skip(1)));
        lemma_utf8_encode_parse(cs.skip(1));
        assert(utf8_prefix(bs).0 == seq![c] + utf8_prefix(rest).0);
        assert(seq![c] + cs.skip(1) =~= cs);
    }
}

/// Round trip, parse side: the greedy UTF-8 prefix consists of scalar
/// values whose encoding is exactly the bytes consumed.
pub proof fn lemma_utf8_prefix_encodes(bs: Seq<u8>)
    ensures
        all_scalar_values(utf8_prefix(bs).0),
        0 <= utf8_prefix(bs).1 <= bs.len(),
        utf8_encoding(utf8_prefix(bs).0) =~= bs.take(utf8_prefix(bs).1),
        utf8_encoding(utf8_prefix(bs).0).len() == utf8_prefix(bs).1,
    decreases bs.len(),
{
    if utf8_step(bs) is Some {
        let (c, n) = utf8_step(bs)->0;
        lemma_utf8_step_valid(bs);
        lemma_utf8_prefix_encodes(bs.skip(n));
        let cr = utf8_prefix(bs.skip(n)).0;
        let k = utf8_prefix(bs.skip(n)).1;
        assert(utf8_prefix(bs).0 == seq![c] + cr);
        assert(utf8_prefix(bs).1 == n + k);
        assert(all_scalar_values(seq![c] + cr)) by {
            assert(forall|i: int|
                0 <= i < (seq![c] + cr).len() ==> #[trigger] (seq![c] + cr)[i] == if i == 0 {
                    c
                } else {
                    cr[i - 1]
                });
        }
        lemma_utf8_encoding_append(seq![c], cr);
        lemma_utf8_encoding_singleton(c);
        assert(bs.take(n + k) =~= bs.take(n) + bs.skip(n).take(k));
        assert(utf8_encoding(seq![c] + cr) =~= bs.take(n + k));
    } else {
        assert(utf8_prefix(bs).0 =~= Seq::<int>::empty());
        assert(bs.take(0) =~= Seq::<u8>::empty());
    }
}

// ---------------------------------------------------------------------------
// Length comparisons between the two encodings
// ---------------------------------------------------------------------------

/// UTF-16 never needs more code units than UTF-8 needs bytes, so a
/// code-unit buffer as long as the byte prefix always suffices.
pub proof fn lemma_units_le_bytes(cs: Seq<int>)
    requires
        all_scalar_values(cs),
    ensures
        utf16_encoding(cs).len() <= utf8_encoding(cs).len(),
    decreases cs.len(),
{
    if cs.len() > 0 {
        assert(is_scalar_value(cs[0]));
        lemma_utf8_of_len(cs[0]);
        lemma_utf16_of_len(cs[0]);
        assert(all_scalar_values(cs.skip(1)));
        lemma_units_le_bytes(cs.skip(1));
    }
}

/// Decoding produces at most three UTF-8 bytes per UTF-16 code unit.
pub proof fn lemma_bytes_le_3_units(cs: Seq<int>)
    requires
        all_scalar_values(cs),
    ensures
        utf8_encoding(cs).len() <= 3 * utf16_encoding(cs).len(),
    decreases cs.len(),
{
    if cs.len() > 0 {
        assert(is_scalar_value(cs[0]));
        lemma_utf8_of_len(cs[0]);
        lemma_utf16_of_len(cs[0]);
        assert(all_scalar_values(cs.skip(1)));
        lemma_bytes_le_3_units(cs.skip(1));
    }
}

// ---------------------------------------------------------------------------
// Partial-write byte accounting
// ---------------------------------------------------------------------------

/// Over one whole character, the per-unit byte accounting charges
/// exactly the character's UTF-8 length: three bytes on a lone BMP unit
/// or a high surrogate, one on the pairing low surrogate.
proof fn lemma_unit_cost_of_char(c: int)
    requires
        is_scalar_value(c),
    ensures
        units_utf8_len(utf16_of(c)) == utf8_len(c),
{
    assert(units_utf8_len(Seq::<u16>::empty()) == 0);
    if c < 0x1_0000 {
        let u = c as u16;
        assert(u as int == c);
        assert(utf16_of(c) =~= seq![u]);
        assert(utf16_of(c).skip(1) =~= Seq::<u16>::empty());
        assert(units_utf8_len(utf16_of(c)) == unit_utf8_len(u));
        assert(unit_utf8_len(u) == utf8_len(c));
    } else {
        lemma_utf16_of_pair(c);
        let h = utf16_of(c)[0];
        let l = utf16_of(c)[1];
        assert(utf16_of(c).skip(1) =~= seq![l]);
        assert(seq![l].skip(1) =~= Seq::<u16>::empty());
        assert(units_utf8_len(seq![l]) == unit_utf8_len(l));
        assert(units_utf8_len(utf16_of(c)) == unit_utf8_len(h) + unit_utf8_len(l));
        assert(unit_utf8_len(h) == 3);
        assert(unit_utf8_len(l) == 1);
    }
}

/// Summed over a whole encoded text, the per-unit byte accounting gives
/// exactly the text's UTF-8 byte length.
pub proof fn lemma_units_utf8_len_total(cs: Seq<int>)
    requires
        all_scalar_values(cs),
    ensures
        units_utf8_len(utf16_encoding(cs)) == utf8_encoding(cs).len(),
    decreases cs.len(),
{
    if cs.len() > 0 {
        assert(is_scalar_value(cs[0]));
        lemma_unit_cost_of_char(cs[0]);
        lemma_utf8_of_len(cs[0]);
        lemma_units_utf8_len_append(utf16_of(cs[0]), utf16_encoding(cs.skip(1)));
        assert(all_scalar_values(cs.skip(1)));
        lemma_units_utf8_len_total(cs.skip(1));
    }
}

/// Both encodings of a text split cleanly at any character boundary.
pub proof fn lemma_encoding_take(cs: Seq<int>, m: int)
    requires
        0 <= m <= cs.len(),
    ensures
        utf8_encoding(cs) =~= utf8_encoding(cs.take(m)) + utf8_encoding(cs.skip(m)),
        utf16_encoding(cs) =~= utf16_encoding(cs.take(m)) + utf16_encoding(cs.skip(m)),
{
    assert(cs =~= cs.take(m) + cs.skip(m));
    lemma_utf8_encoding_append(cs.take(m), cs.skip(m));
    lemma_utf16_encoding_append(cs.take(m), cs.skip(m));
}

/// Partial-write byte accounting: when a native write accepts exactly
/// the code units of the first `m` characters of the text, the per-unit
/// accounting over the accepted units is exactly the UTF-8 byte length
/// of those `m` characters — never more, never less.
pub proof fn lemma_partial_write_accounting(cs: Seq<int>, m: int)
    requires
        all_scalar_values(cs),
        0 <= m <= cs.len(),
    ensures
        utf16_encoding(cs.take(m)).len() <= utf16_encoding(cs).len(),
        units_utf8_len(utf16_encoding(cs).take(utf16_encoding(cs.take(m)).len() as int))
            == utf8_encoding(cs.take(m)).len(),
{
    lemma_encoding_take(cs, m);
    let w = utf16_encoding(cs.take(m)).len() as int;
    assert(utf16_encoding(cs).take(w) =~= utf16_encoding(cs.take(m)));
    assert(all_scalar_values(cs.take(m)));
    lemma_units_utf8_len_total(cs.take(m));
}

/// Wherever a native write cuts the unit stream, the cut is either a
/// character boundary or the middle of one surrogate pair — and in the
/// latter case the unit at the cut is the pair's low surrogate and the
/// next index is a boundary.  This is why a single follow-up write of
/// that one unit restores the accounting to a whole-character prefix.
pub proof fn lemma_cut_is_boundary_or_mid_pair(cs: Seq<int>, w: int)
    requires
        all_scalar_values(cs),
        0 <= w <= utf16_encoding(cs).len(),
    ensures
        (exists|m: int| 0 <= m <= cs.len() && utf16_encoding(cs.take(m)).len() == w) || (
        is_low_surrogate(utf16_encoding(cs)[w]) && exists|m: int|
            0 <= m <= cs.len() && utf16_encoding(cs.take(m)).len() == w + 1),
    decreases cs.len(),
{
    if w == 0 {
        assert(cs.take(0) =~= Seq::<int>::empty());
        assert(utf16_encoding(cs.take(0)).len() == 0);
    } else {
        let c = cs[0];
        assert(is_scalar_value(c));
        lemma_utf16_of_len(c);
        let ulen = utf16_len(c);
        let rest = cs.skip(1);
        assert(all_scalar_values(rest));
        if w < ulen {
            // Inside the first character: only a two-unit character has
            // an interior index, and its second unit is the low
            // surrogate.
            assert(ulen == 2 && w == 1);
            lemma_utf16_of_pair(c);
            assert(utf16_encoding(cs)[1] == utf16_of(c)[1]);
            assert(cs.take(1) =~= seq![c]);
            lemma_utf16_encoding_singleton(c);
            assert(utf16_encoding(cs.take(1)).len() == 2);
        } else {
            lemma_cut_is_boundary_or_mid_pair(rest, w - ulen);
            assert(utf16_encoding(cs) == utf16_of(c) + utf16_encoding(rest));
            if exists|m: int|
                0 <= m <= rest.len() && utf16_encoding(rest.take(m)).len() == w - ulen {
                let m = choose|m: int|
                    0 <= m <= rest.len() && utf16_encoding(rest.take(m)).len() == w - ulen;
                assert(cs.take(m + 1) =~= seq![c] + rest.take(m));
                lemma_utf16_encoding_append(seq![c], rest.take(m));
                lemma_utf16_encoding_singleton(c);
                assert(utf16_encoding(cs.take(m + 1)).len() == w);
            } else {
                assert(w - ulen < utf16_encoding(rest).len()) by {
                    if w - ulen == utf16_encoding(rest).len() {
                        assert(rest.take(rest.len() as int) =~= rest);
                        assert(utf16_encoding(rest.take(rest.len() as int)).len() == w - ulen);
                    }
                }
                assert(is_low_surrogate(utf16_encoding(rest)[w - ulen]));
                assert(utf16_encoding(cs)[w] == utf16_encoding(rest)[w - ulen]);
                let m = choose|m: int|
                    0 <= m <= rest.len() && utf16_encoding(rest.take(m)).len() == w + 1 - ulen;
                assert(cs.take(m + 1) =~= seq![c] + rest.take(m));
                lemma_utf16_encoding_append(seq![c], rest.take(m));
                lemma_utf16_encoding_singleton(c);
                assert(utf16_encoding(cs.take(m + 1)).len() == w + 1);
            }
        }
    }
}

/// No byte is lost or double-counted across split writes: the bytes of
/// the first `m` characters and the bytes of the rest partition the
/// whole encoding, so the byte counts of the calls of a split write sum
/// to the full byte length, and a caller that resumes after the counted
/// prefix transmits exactly the remainder.
pub proof fn lemma_split_write_exact(cs: Seq<int>, m: int)
    requires
        0 <= m <= cs.len(),
    ensures
        utf8_encoding(cs.take(m)) + utf8_encoding(cs.skip(m)) =~= utf8_encoding(cs),
        utf8_encoding(cs.take(m)).len() + utf8_encoding(cs.skip(m)).len() == utf8_encoding(
            cs,
        ).len(),
        utf8_encoding(cs).skip(utf8_encoding(cs.take(m)).len() as int) =~= utf8_encoding(
            cs.skip(m),
        ),
{
    lemma_encoding_take(cs, m);
}

/// A byte below 0x80 is one whole ASCII character, so an all-ASCII
/// byte sequence is entirely its own valid UTF-8 prefix, one code unit
/// per byte.
pub proof fn lemma_ascii_prefix(bs: Seq<u8>)
    requires
        forall|i: int| 0 <= i < bs.len() ==> bs[i] < 0x80,
    ensures
        utf8_prefix(bs).1 == bs.len(),
        utf16_encoding(utf8_prefix(bs).0).len() == bs.len(),
    decreases bs.len(),
{
    if bs.len() == 0 {
        assert(utf8_step(bs) is None);
        assert(utf16_encoding(utf8_prefix(bs).0) =~= Seq::<u16>::empty());
    } else {
        assert(bs[0] < 0x80);
        assert(utf8_step(bs) == Some((bs[0] as int, 1int)));
        assert forall|i: int| 0 <= i < bs.skip(1).len() implies bs.skip(1)[i] < 0x80 by {
            assert(bs.skip(1)[i] == bs[i + 1]);
        }
        lemma_ascii_prefix(bs.skip(1));
        let c = bs[0] as int;
        let cr = utf8_prefix(bs.skip(1)).0;
        assert(utf8_prefix(bs).0 == seq![c] + cr);
        lemma_utf16_encoding_append(seq![c], cr);
        lemma_utf16_encoding_singleton(c);
        assert(utf16_of(c).len() == 1);
    }
}

/// Resuming a split write after a boundary-accounted count: parsing
/// the remainder of the encoding yields exactly the remaining
/// characters, so the counts of a resumed write cover every byte once.
pub proof fn lemma_resume_after_boundary(cs: Seq<int>, m: int)
    requires
        all_scalar_values(cs),
        0 <= m <= cs.len(),
    ensures
        utf8_prefix(utf8_encoding(cs).skip(utf8_encoding(cs.take(m)).len() as int)).0 == cs.skip(
            m,
        ),
        utf8_prefix(utf8_encoding(cs).skip(utf8_encoding(cs.take(m)).len() as int)).1
            == utf8_encoding(cs.skip(m)).len(),
{
    lemma_encoding_take(cs, m);
    assert(utf8_encoding(cs).skip(utf8_encoding(cs.take(m)).len() as int) =~= utf8_encoding(
        cs.skip(m),
    ));
    assert(all_scalar_values(cs.skip(m)));
    lemma_utf8_encode_parse(cs.skip(m));
}

/// Surrogate carry-over across reads: the units before a held-back high
/// surrogate, decoded on their own, followed by the held-back unit
/// rejoined with the next read's units, decode to exactly what one
/// unsplit read would have produced.
pub proof fn lemma_surrogate_carry(head: Seq<u16>, h: u16, tail: Seq<u16>)
    requires
        utf16_parse(head) is Some,
        utf16_parse(seq![h] + tail) is Some,
    ensures
        utf16_parse(head + seq![h] + tail) == Some(
            utf16_parse(head)->0 + utf16_parse(seq![h] + tail)->0,
        ),
{
    lemma_utf16_parse_append(head, seq![h] + tail);
    assert(head + seq![h] + tail =~= head + (seq![h] + tail));
}

// ---------------------------------------------------------------------------
// Output-buffer room for decoding
// ---------------------------------------------------------------------------

/// Every well-formed prefix of `us` decodes into at most `cap` bytes.
/// This is the room the decoder needs in its output buffer: before it
/// discovers a malformed unit it may already have written the bytes of
/// every character in front of that unit.
pub open spec fn decode_fits(us: Seq<u16>, cap: int) -> bool {
    forall|j: int|
        0 <= j <= us.len() && #[trigger] utf16_parse(us.take(j)) is Some ==> utf8_encoding(
            utf16_parse(us.take(j))->0,
        ).len() <= cap
}

/// Three bytes of room per code unit always suffice.
pub proof fn lemma_decode_fits_3x(us: Seq<u16>, cap: int)
    requires
        3 * us.len() <= cap,
    ensures
        decode_fits(us, cap),
{
    assert forall|j: int|
        0 <= j <= us.len() && #[trigger] utf16_parse(us.take(j)) is Some implies utf8_encoding(
        utf16_parse(us.take(j))->0,
    ).len() <= cap by {
        lemma_utf16_parse_encode(us.take(j));
        lemma_bytes_le_3_units(utf16_parse(us.take(j))->0);
    }
}

/// A buffer of at most two units that begins with a high surrogate
/// decodes to at most one character: four bytes of room suffice.
pub proof fn lemma_decode_fits_pair(us: Seq<u16>, cap: int)
    requires
        us.len() <= 2,
        us.len() >= 1 ==> is_high_surrogate(us[0]),
        cap >= 4,
    ensures
        decode_fits(us, cap),
{
    assert forall|j: int|
        0 <= j <= us.len() && #[trigger] utf16_parse(us.take(j)) is Some implies utf8_encoding(
        utf16_parse(us.take(j))->0,
    ).len() <= cap by {
        lemma_utf16_parse_encode(us.take(j));
        let cs = utf16_parse(us.take(j))->0;
        lemma_bytes_le_3_units(cs);
        if j >= 1 {
            assert(us.take(j)[0] == us[0]);
            assert(is_high_surrogate(us[0]));
            if j == 1 {
                assert(utf16_parse(us.take(1)) is None);
            } else {
                assert(j == 2);
                assert(us.take(2).len() == 2);
                assert(is_low_surrogate(us.take(2)[1]));
                let c = pair_value(us.take(2)[0], us.take(2)[1]);
                assert(utf16_parse(us.take(2).skip(2)) == Some(Seq::<int>::empty())) by {
                    assert(us.take(2).skip(2) =~= Seq::<u16>::empty());
                }
                assert(cs == seq![c] + Seq::<int>::empty());
                assert(cs =~= seq![c]);
                lemma_utf8_encoding_singleton(c);
                lemma_utf8_of_len(c);
                lemma_utf16_unpair(us.take(2)[0], us.take(2)[1]);
                assert(utf8_len(c) == 4);
            }
        }
    }
}

/// Two well-formed UTF-16 sequences stay well-formed under
/// concatenation, and parse to the concatenation of their parses.
pub proof fn lemma_utf16_parse_append(a: Seq<u16>, b: Seq<u16>)
    requires
        utf16_parse(a) is Some,
        utf16_parse(b) is Some,
    ensures
        utf16_parse(a + b) == Some(utf16_parse(a)->0 + utf16_parse(b)->0),
    decreases a.len(),
{
    if a.len() == 0 {
        assert(a + b =~= b);
        assert(utf16_parse(a)->0 + utf16_parse(b)->0 =~= utf16_parse(b)->0);
    } else if !is_surrogate(a[0]) {
        assert((a + b)[0] == a[0]);
        assert((a + b).skip(1) =~= a.skip(1) + b);
        lemma_utf16_parse_append(a.skip(1), b);
        assert(seq![a[0] as int] + (utf16_parse(a.skip(1))->0 + utf16_parse(b)->0) =~= (seq![
            a[0] as int,
        ] + utf16_parse(a.skip(1))->0) + utf16_parse(b)->0);
    } else {
        assert(is_high_surrogate(a[0]) && a.len() >= 2 && is_low_surrogate(a[1]));
        assert((a + b)[0] == a[0]);
        assert((a + b)[1] == a[1]);
        assert((a + b).len() >= 2);
        assert((a + b).skip(2) =~= a.skip(2) + b);
        lemma_utf16_parse_append(a.skip(2), b);
        let c = pair_value(a[0], a[1]);
        assert(seq![c] + (utf16_parse(a.skip(2))->0 + utf16_parse(b)->0) =~= (seq![c]
            + utf16_parse(a.skip(2))->0) + utf16_parse(b)->0);
    }
}

// ---------------------------------------------------------------------------
// Executable transcoding
// ---------------------------------------------------------------------------

/// The accounting of a one-unit sequence is the unit's own.
proof fn lemma_units_utf8_len_singleton(u: u16)
    ensures
        units_utf8_len(seq![u]) == unit_utf8_len(u),
{
    assert(seq![u].skip(1) =~= Seq::<u16>::empty());
    assert(units_utf8_len(Seq::<u16>::empty()) == 0);
}

/// Reads one UTF-8 character from `data[pos..len]`: the executable
/// mirror of `utf8_step` on that byte range.
fn utf8_step_exec(data: &[u8], pos: usize, len: usize) -> (r: Option<(u32, usize)>)
    requires
        pos < len <= data@.len(),
    ensures
        ({
            let bs = data@.subrange(pos as int, len as int);
            match r {
                Some((c, n)) => {
                    &&& utf8_step(bs) == Some((c as int, n as int))
                    &&& is_scalar_value(c as int)
                    &&& utf8_len(c as int) == n
                    &&& 1 <= n <= len - pos
                },
                None => utf8_step(bs) is None,
            }
        }),
{
    let ghost bs = data@.subrange(pos as int, len as int);
    let avail: usize = len - pos;
    let b0: u8 = data[pos];
    assert(bs[0] == b0);
    if b0 < 0x80 {
        Some((b0 as u32, 1))
    } else if 0xC2 <= b0 && b0 <= 0xDF {
        if avail < 2 {
            None
        } else {
            let b1: u8 = data[pos + 1];
            assert(bs[1] == b1);
            if 0x80 <= b1 && b1 <= 0xBF {
                let c: u32 = (b0 as u32 - 0xC0) * 0x40 + (b1 as u32 - 0x80);
                Some((c, 2))
            } else {
                None
            }
        }
    } else if 0xE0 <= b0 && b0 <= 0xEF {
        if avail < 3 {
            None
        } else {
            let b1: u8 = data[pos + 1];
            let b2: u8 = data[pos + 2];
            assert(bs[1] == b1);
            assert(bs[2] == b2);
            if 0x80 <= b1 && b1 <= 0xBF && 0x80 <= b2 && b2 <= 0xBF {
                let c: u32 = (b0 as u32 - 0xE0) * 0x1000 + (b1 as u32 - 0x80) * 0x40 + (b2 as u32
                    - 0x80);
                if 0x800 <= c && !(0xD800 <= c && c <= 0xDFFF) {
                    Some((c, 3))
                } else {
                    None
                }
            } else {
                None
            }
        }
    } else if 0xF0 <= b0 && b0 <= 0xF4 {
        if avail < 4 {
            None
        } else {
            let b1: u8 = data[pos + 1];
            let b2: u8 = data[pos + 2];
            let b3: u8 = data[pos + 3];
            assert(bs[1] == b1);
            assert(bs[2] == b2);
            assert(bs[3] == b3);
            if 0x80 <= b1 && b1 <= 0xBF && 0x80 <= b2 && b2 <= 0xBF && 0x80 <= b3 && b3 <= 0xBF {
                let c: u32 = (b0 as u32 - 0xF0) * 0x4_0000 + (b1 as u32 - 0x80) * 0x1000 + (
                b2 as u32 - 0x80) * 0x40 + (b3 as u32 - 0x80);
                if 0x1_0000 <= c && c < 0x11_0000 {
                    Some((c, 4))
                } else {
                    None
                }
            } else {
                None
            }
        }
    } else {
        None
    }
}

/// Transcodes the longest well-formed UTF-8 prefix of `data[..len]`
/// into UTF-16 code units: returns the units and the number of input
/// bytes they stand for.  Invalid bytes after a valid prefix are left
/// for a later call to refuse; the unit count never exceeds the byte
/// count, so a unit buffer as long as the input always suffices.
pub fn utf8_to_utf16_prefix(data: &[u8], len: usize) -> (r: (Vec<u16>, usize))
    requires
        len <= data@.len(),
    ensures
        r.0@ =~= utf16_encoding(utf8_prefix(data@.take(len as int)).0),
        r.1 == utf8_prefix(data@.take(len as int)).1,
        r.1 <= len,
        r.0@.len() <= r.1,
{
    let ghost s = data@.take(len as int);
    let mut units: Vec<u16> = Vec::new();
    let mut pos: usize = 0;
    let ghost mut cs_done: Seq<int> = Seq::empty();
    proof {
        assert(s.skip(0) =~= s);
        assert(utf16_encoding(cs_done) =~= Seq::<u16>::empty());
        assert(utf8_encoding(cs_done) =~= Seq::<u8>::empty());
    }
    loop
        invariant
            pos <= len <= data@.len(),
            s == data@.take(len as int),
            all_scalar_values(cs_done),
            units@ =~= utf16_encoding(cs_done),
            units@.len() <= pos,
            utf8_prefix(s).0 == cs_done + utf8_prefix(s.skip(pos as int)).0,
            utf8_prefix(s).1 == pos + utf8_prefix(s.skip(pos as int)).1,
        ensures
            pos <= len,
            units@ =~= utf16_encoding(cs_done),
            units@.len() <= pos,
            utf8_prefix(s).0 == cs_done,
            utf8_prefix(s).1 == pos,
        decreases len - pos,
    {
        if pos == len {
            proof {
                assert(s.skip(pos as int) =~= Seq::<u8>::empty());
                assert(utf8_step(Seq::<u8>::empty()) is None);
                assert(cs_done + utf8_prefix(s.skip(pos as int)).0 =~= cs_done);
            }
            break ;
        }
        let step = utf8_step_exec(data, pos, len);
        proof {
            assert(s.skip(pos as int) =~= data@.subrange(pos as int, len as int));
        }
        match step {
            None => {
                proof {
                    assert(utf8_step(s.skip(pos as int)) is None);
                    assert(cs_done + utf8_prefix(s.skip(pos as int)).0 =~= cs_done);
                }
                break ;
            },
            Some((c, n)) => {
                proof {
                    assert(utf8_step(s.skip(pos as int)) == Some((c as int, n as int)));
                    assert(s.skip(pos as int).skip(n as int) =~= s.skip(pos + n as int));
                    assert(utf8_prefix(s.skip(pos as int)).0 == seq![c as int] + utf8_prefix(
                        s.skip(pos + n as int),
                    ).0);
                    assert(utf8_prefix(s.skip(pos as int)).1 == n + utf8_prefix(
                        s.skip(pos + n as int),
                    ).1);
                    assert(cs_done + (seq![c as int] + utf8_prefix(s.skip(pos + n as int)).0) =~= (
                    cs_done + seq![c as int]) + utf8_prefix(s.skip(pos + n as int)).0);
                    lemma_utf16_encoding_append(cs_done, seq![c as int]);
                    lemma_utf16_encoding_singleton(c as int);
                }
                if c < 0x1_0000 {
                    units.push(c as u16);
                    proof {
                        assert(utf16_of(c as int) =~= seq![c as u16]);
                        assert(units@ =~= utf16_encoding(cs_done + seq![c as int]));
                    }
                } else {
                    proof {
                        lemma_utf16_of_pair(c as int);
                    }
                    let x: u32 = c - 0x1_0000;
                    let h: u16 = (0xD800 + x / 0x400) as u16;
                    let l: u16 = (0xDC00 + x % 0x400) as u16;
                    units.push(h);
                    units.push(l);
                    proof {
                        assert(h == utf16_of(c as int)[0]);
                        assert(l == utf16_of(c as int)[1]);
                        assert(utf16_of(c as int) =~= seq![h, l]);
                        assert(units@ =~= utf16_encoding(cs_done + seq![c as int]));
                    }
                }
                proof {
                    assert(all_scalar_values(cs_done + seq![c as int])) by {
                        assert(forall|i: int|
                            0 <= i < cs_done.len() + 1 ==> #[trigger] (cs_done + seq![c as int])[i]
                                == if i < cs_done.len() {
                                cs_done[i]
                            } else {
                                c as int
                            });
                    }
                    cs_done = cs_done + seq![c as int];
                }
                pos = pos + n;
            },
        }
    }
    (units, pos)
}

/// Sums the per-unit byte accounting over `units[..written]`: the UTF-8
/// byte count a partial console write reports for the accepted units.
pub(crate) fn utf8_count_for_units(units: &[u16], written: usize) -> (r: usize)
    requires
        written <= units@.len(),
        units@.len() <= 0x1000,
    ensures
        r == units_utf8_len(units@.take(written as int)),
{
    let mut count: usize = 0;
    let mut i: usize = 0;
    proof {
        assert(units@.take(0) =~= Seq::<u16>::empty());
    }
    while i < written
        invariant
            i <= written <= units@.len(),
            units@.len() <= 0x1000,
            count == units_utf8_len(units@.take(i as int)),
            count <= 3 * i,
        decreases written - i,
    {
        let u: u16 = *vstd::slice::slice_index_get(units, i);
        let add: usize = if u <= 0x7F {
            1
        } else if u <= 0x7FF {
            2
        } else if 0xDC00 <= u && u <= 0xDFFF {
            1
        } else {
            3
        };
        proof {
            assert(units@.take(i + 1 as int) =~= units@.take(i as int) + seq![units@[i as int]]);
            lemma_units_utf8_len_append(units@.take(i as int), seq![units@[i as int]]);
            lemma_units_utf8_len_singleton(units@[i as int]);
        }
        count = count + add;
        i = i + 1;
    }
    count
}

/// Writes the UTF-8 encoding of one scalar value at `out[at..]` and
/// returns its length in bytes; nothing else in the buffer moves.
fn write_utf8_char(out: &mut Vec<u8>, at: usize, c: u32) -> (n: usize)
    requires
        is_scalar_value(c as int),
        at + utf8_len(c as int) <= old(out)@.len(),
    ensures
        n == utf8_len(c as int),
        final(out)@.len() == old(out)@.len(),
        final(out)@.subrange(at as int, at + n) =~= utf8_of(c as int),
        forall|i: int| 0 <= i < at ==> final(out)@[i] == old(out)@[i],
        forall|i: int| at + n <= i < final(out)@.len() ==> final(out)@[i] == old(out)@[i],
{
    let cap: usize = out.len();
    assert(out@.len() == cap);
    if c < 0x80 {
        out[at] = c as u8;
        proof {
            assert(utf8_of(c as int) =~= seq![c as u8]);
            assert(out@.subrange(at as int, at + 1) =~= seq![c as u8]);
        }
        1
    } else if c < 0x800 {
        proof {
            lemma_utf8_of_2(c as int);
        }
        out[at] = (0xC0 + c / 0x40) as u8;
        out[at + 1] = (0x80 + c % 0x40) as u8;
        proof {
            assert(out@.subrange(at as int, at + 2) =~= utf8_of(c as int));
        }
        2
    } else if c < 0x1_0000 {
        proof {
            lemma_utf8_of_3(c as int);
        }
        out[at] = (0xE0 + c / 0x1000) as u8;
        out[at + 1] = (0x80 + (c / 0x40) % 0x40) as u8;
        out[at + 2] = (0x80 + c % 0x40) as u8;
        proof {
            assert(out@.subrange(at as int, at + 3) =~= utf8_of(c as int));
        }
        3
    } else {
        proof {
            lemma_utf8_of_4(c as int);
        }
        out[at] = (0xF0 + c / 0x4_0000) as u8;
        out[at + 1] = (0x80 + (c / 0x1000) % 0x40) as u8;
        out[at + 2] = (0x80 + (c / 0x40) % 0x40) as u8;
        out[at + 3] = (0x80 + c % 0x40) as u8;
        proof {
            assert(out@.subrange(at as int, at + 4) =~= utf8_of(c as int));
        }
        4
    }
}

/// Decodes `units[..total]` from UTF-16 into UTF-8, written over the
/// front of `out`; returns the number of bytes written.  Any unpaired
/// surrogate fails the whole call with `InvalidData`: no count is
/// returned, and the caller must treat the buffer contents as
/// unspecified.  `decode_fits` is exactly the room the greedy decoder
/// needs before it could discover a malformed unit.
pub fn utf16_to_utf8(units: &Vec<u16>, total: usize, out: &mut Vec<u8>) -> (r: Result<
    usize,
    crate::console::StreamError,
>)
    requires
        total <= units@.len(),
        decode_fits(units@.take(total as int), old(out)@.len() as int),
    ensures
        final(out)@.len() == old(out)@.len(),
        r is Ok <==> utf16_parse(units@.take(total as int)) is Some,
        r matches Ok(n) ==> ({
            let cs = utf16_parse(units@.take(total as int))->0;
            &&& n == utf8_encoding(cs).len()
            &&& n <= final(out)@.len()
            &&& final(out)@.take(n as int) =~= utf8_encoding(cs)
            &&& forall|i: int|
                n <= i < final(out)@.len() ==> final(out)@[i] == old(out)@[i]
        }),
        r matches Err(e) ==> e == crate::console::StreamError::InvalidData,
{
    let ghost us = units@.take(total as int);
    let cap: usize = out.len();
    let mut j: usize = 0;
    let mut written: usize = 0;
    let ghost mut cs_done: Seq<int> = Seq::empty();
    proof {
        assert(us.skip(0) =~= us);
        assert(us.take(0) =~= Seq::<u16>::empty());
        assert(utf16_parse(Seq::<u16>::empty()) == Some(Seq::<int>::empty()));
        assert(cs_done =~= Seq::<int>::empty());
        assert(utf8_encoding(cs_done) =~= Seq::<u8>::empty());
        assert(out@.take(0) =~= Seq::<u8>::empty());
    }
    while j < total
        invariant
            j <= total <= units@.len(),
            us == units@.take(total as int),
            decode_fits(us, old(out)@.len() as int),
            out@.len() == old(out)@.len(),
            out@.len() == cap,
            all_scalar_values(cs_done),
            utf16_parse(us.take(j as int)) == Some(cs_done),
            written == utf8_encoding(cs_done).len(),
            written <= out@.len(),
            out@.take(written as int) =~= utf8_encoding(cs_done),
            forall|i: int| written <= i < out@.len() ==> out@[i] == old(out)@[i],
            utf16_parse(us.skip(j as int)) is Some ==> utf16_parse(us) == Some(
                cs_done + utf16_parse(us.skip(j as int))->0,
            ),
            utf16_parse(us.skip(j as int)) is None ==> utf16_parse(us) is None,
        decreases total - j,
    {
        let u: u16 = units[j];
        proof {
            assert(us[j as int] == units@[j as int]);
            assert(us.skip(j as int)[0] == us[j as int]);
        }
        let c: u32;
        let consumed: usize;
        if !(0xD800 <= u && u <= 0xDFFF) {
            c = u as u32;
            consumed = 1;
            proof {
                assert(is_scalar_value(c as int));
                assert(us.skip(j as int).skip(1) =~= us.skip(j + 1 as int));
                assert(us.take(j + 1 as int) =~= us.take(j as int) + seq![u]);
                assert(seq![u].skip(1) =~= Seq::<u16>::empty());
                assert(utf16_parse(Seq::<u16>::empty()) == Some(Seq::<int>::empty()));
                assert(utf16_parse(seq![u]) == Some(seq![u as int] + Seq::<int>::empty()));
                assert(seq![u as int] + Seq::<int>::empty() =~= seq![u as int]);
                lemma_utf16_parse_append(us.take(j as int), seq![u]);
                assert(utf16_parse(us.take(j + 1 as int)) == Some(cs_done + seq![c as int]));
                assert(utf16_parse(us.skip(j as int)) is Some ==> utf16_parse(us.skip(j as int))
                    == Some(seq![c as int] + utf16_parse(us.skip(j + 1 as int))->0));
            }
        } else if 0xD800 <= u && u <= 0xDBFF && j + 1 < total {
            let u2: u16 = units[j + 1];
            proof {
                assert(us[j + 1 as int] == units@[j + 1 as int]);
                assert(us.skip(j as int)[1] == us[j + 1 as int]);
            }
            if 0xDC00 <= u2 && u2 <= 0xDFFF {
                c = 0x1_0000 + (u as u32 - 0xD800) * 0x400 + (u2 as u32 - 0xDC00);
                consumed = 2;
                proof {
                    lemma_utf16_unpair(u, u2);
                    assert(c as int == pair_value(u, u2));
                    assert(is_scalar_value(c as int));
                    assert(us.skip(j as int).skip(2) =~= us.skip(j + 2 as int));
                    assert(us.take(j + 2 as int) =~= us.take(j as int) + seq![u, u2]);
                    assert(seq![u, u2].skip(2) =~= Seq::<u16>::empty());
                    assert(utf16_parse(Seq::<u16>::empty()) == Some(Seq::<int>::empty()));
                    assert(utf16_parse(seq![u, u2]) == Some(
                        seq![pair_value(u, u2)] + Seq::<int>::empty(),
                    ));
                    assert(seq![pair_value(u, u2)] + Seq::<int>::empty() =~= seq![
                        pair_value(u, u2),
                    ]);
                    lemma_utf16_parse_append(us.take(j as int), seq![u, u2]);
                    assert(utf16_parse(us.take(j + 2 as int)) == Some(cs_done + seq![c as int]));
                    assert(utf16_parse(us.skip(j as int)) is Some ==> utf16_parse(
                        us.skip(j as int),
                    ) == Some(seq![c as int] + utf16_parse(us.skip(j + 2 as int))->0));
                }
            } else {
                proof {
                    assert(utf16_parse(us.skip(j as int)) is None);
                }
                return Err(crate::console::StreamError::InvalidData);
            }
        } else {
            proof {
                if is_high_surrogate(u) {
                    assert(us.skip(j as int).len() < 2);
                }
                assert(utf16_parse(us.skip(j as int)) is None);
            }
            return Err(crate::console::StreamError::InvalidData);
        }
        proof {
            assert(utf16_parse(us.take((j + consumed) as int)) is Some);
            assert(utf16_parse(us.take((j + consumed) as int))->0 == cs_done + seq![c as int]);
            lemma_utf8_encoding_append(cs_done, seq![c as int]);
            lemma_utf8_encoding_singleton(c as int);
            lemma_utf8_of_len(c as int);
            assert(utf8_encoding(cs_done + seq![c as int]).len() == written + utf8_len(c as int));
            assert(written + utf8_len(c as int) <= out@.len());
        }
        let ghost before = out@;
        let n = write_utf8_char(out, written, c);
        proof {
            assert(out@.take(written as int) =~= before.take(written as int));
            assert(out@.take(written + n as int) =~= out@.take(written as int) + out@.subrange(
                written as int,
                written + n,
            ));
        }
        written = written + n;
        proof {
            assert(out@.take(written as int) =~= utf8_encoding(cs_done + seq![c as int]));
            assert(all_scalar_values(cs_done + seq![c as int])) by {
                assert(forall|i: int|
                    0 <= i < cs_done.len() + 1 ==> #[trigger] (cs_done + seq![c as int])[i] == if i
                        < cs_done.len() {
                        cs_done[i]
                    } else {
                        c as int
                    });
            }
            cs_done = cs_done + seq![c as int];
        }
        j = j + consumed;
    }
    proof {
        assert(us.skip(total as int) =~= Seq::<u16>::empty());
        assert(utf16_parse(Seq::<u16>::empty()) == Some(Seq::<int>::empty()));
        assert(us.take(total as int) =~= us);
        assert(utf16_parse(us) == Some(cs_done));
    }
    Ok(written)
}

} // verus!
