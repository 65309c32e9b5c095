//! A JSON reader for the administrative interface's response bodies.
//!
//! The input is the raw bytes of a response. The grammar is standard JSON
//! over UTF-8 bytes, with one deliberate restriction that the consumed
//! responses never exercise: the number values that the tool reads (a room
//! count) must be unsigned integers, though any JSON number is accepted
//! where a value is only skipped over. String escapes, `\u` sequences and
//! surrogate pairs included, decode to the UTF-8 bytes they stand for.
//!
//! Every reading function is specified against a spec-level parser over
//! `Seq<u8>`; a document is well formed exactly when that parser accepts it.

use vstd::prelude::*;

verus! {

pub const QUOTE: u8 = 0x22;
pub const BACKSLASH: u8 = 0x5c;
pub const LBRACE: u8 = 0x7b;
pub const RBRACE: u8 = 0x7d;
pub const LBRACKET: u8 = 0x5b;
pub const RBRACKET: u8 = 0x5d;
pub const COMMA: u8 = 0x2c;
pub const COLON: u8 = 0x3a;
pub const MINUS: u8 = 0x2d;
pub const PLUS: u8 = 0x2b;
pub const DOT: u8 = 0x2e;
pub const DIGIT_ZERO: u8 = 0x30;
pub const DIGIT_NINE: u8 = 0x39;

/// JSON insignificant whitespace: space, tab, line feed, carriage return.
pub open spec fn is_ws(c: u8) -> bool {
    c == 0x20 || c == 0x09 || c == 0x0a || c == 0x0d
}

pub open spec fn is_digit(c: u8) -> bool {
    DIGIT_ZERO <= c && c <= DIGIT_NINE
}

/// The first position at or after `i` holding no whitespace (or the end).
pub open spec fn spec_skip_ws(s: Seq<u8>, i: int) -> int
    decreases s.len() - i,
{
    if 0 <= i < s.len() && is_ws(s[i]) {
        spec_skip_ws(s, i + 1)
    } else {
        i
    }
}

pub fn skip_ws(s: &[u8], i: usize) -> (r: usize)
    requires
        i <= s@.len(),
    ensures
        r == spec_skip_ws(s@, i as int),
        i <= r <= s@.len(),
{
    let n = s.len();
    let mut j = i;
    while j < n && (s[j] == 0x20 || s[j] == 0x09 || s[j] == 0x0a || s[j] == 0x0d)
        invariant
            i <= j <= n,
            n == s@.len(),
            spec_skip_ws(s@, i as int) == spec_skip_ws(s@, j as int),
        decreases n - j,
    {
        j = j + 1;
    }
    j
}

/// What a single character escape after a backslash stands for.
pub open spec fn spec_unescape(c: u8) -> Option<u8> {
    if c == QUOTE {
        Some(QUOTE)
    } else if c == BACKSLASH {
        Some(BACKSLASH)
    } else if c == 0x2f {  // '/'
        Some(0x2f)
    } else if c == 0x62 {  // 'b'
        Some(0x08)
    } else if c == 0x66 {  // 'f'
        Some(0x0c)
    } else if c == 0x6e {  // 'n'
        Some(0x0a)
    } else if c == 0x72 {  // 'r'
        Some(0x0d)
    } else if c == 0x74 {  // 't'
        Some(0x09)
    } else {
        None
    }
}

fn unescape(c: u8) -> (r: Option<u8>)
    ensures
        r == spec_unescape(c),
{
    if c == QUOTE {
        Some(QUOTE)
    } else if c == BACKSLASH {
        Some(BACKSLASH)
    } else if c == 0x2f {
        Some(0x2f)
    } else if c == 0x62 {
        Some(0x08)
    } else if c == 0x66 {
        Some(0x0c)
    } else if c == 0x6e {
        Some(0x0a)
    } else if c == 0x72 {
        Some(0x0d)
    } else if c == 0x74 {
        Some(0x09)
    } else {
        None
    }
}

fn hex_digit(c: u8) -> (r: Option<u8>)
    ensures
        (match r {
            Some(v) => hex_val(c) == v as int && v < 16,
            None => hex_val(c) < 0,
        }),
{
    if c >= 0x30 && c <= 0x39 {
        Some(c - 0x30)
    } else if c >= 0x61 && c <= 0x66 {
        Some(c - 0x61 + 10)
    } else if c >= 0x41 && c <= 0x46 {
        Some(c - 0x41 + 10)
    } else {
        None
    }
}

/// Reads four hexadecimal digits at `i` as one value.
fn hex4(s: &[u8], i: usize) -> (r: Option<u32>)
    requires
        i <= s@.len(),
    ensures
        (match r {
            Some(v) => spec_hex4(s@, i as int) == v as int && v < 0x10000,
            None => spec_hex4(s@, i as int) < 0,
        }),
{
    let n = s.len();
    if n - i < 4 {
        return None;
    }
    let d0 = match hex_digit(s[i]) {
        Some(d) => d,
        None => {
            return None;
        },
    };
    let d1 = match hex_digit(s[i + 1]) {
        Some(d) => d,
        None => {
            return None;
        },
    };
    let d2 = match hex_digit(s[i + 2]) {
        Some(d) => d,
        None => {
            return None;
        },
    };
    let d3 = match hex_digit(s[i + 3]) {
        Some(d) => d,
        None => {
            return None;
        },
    };
    Some((d0 as u32) * 4096 + (d1 as u32) * 256 + (d2 as u32) * 16 + (d3 as u32))
}

/// Appends the UTF-8 encoding of the code point `c`.
fn push_utf8(out: &mut Vec<u8>, c: u32)
    requires
        c < 0x110000,
    ensures
        final(out)@ == old(out)@ + utf8_bytes(c as int),
{
    if c < 0x80 {
        out.push(c as u8);
    } else if c < 0x800 {
        out.push((0xc0 + c / 64) as u8);
        out.push((0x80 + c % 64) as u8);
    } else if c < 0x10000 {
        out.push((0xe0 + c / 4096) as u8);
        out.push((0x80 + (c / 64) % 64) as u8);
        out.push((0x80 + c % 64) as u8);
    } else {
        out.push((0xf0 + c / 262144) as u8);
        out.push((0x80 + (c / 4096) % 64) as u8);
        out.push((0x80 + (c / 64) % 64) as u8);
        out.push((0x80 + c % 64) as u8);
    }
    assert(out@ =~= old(out)@ + utf8_bytes(c as int));
}

/// The value of one hexadecimal digit byte, or a negative number.
pub open spec fn hex_val(c: u8) -> int {
    if 0x30 <= c <= 0x39 {
        c - 0x30
    } else if 0x61 <= c <= 0x66 {
        c - 0x61 + 10
    } else if 0x41 <= c <= 0x46 {
        c - 0x41 + 10
    } else {
        -1
    }
}

/// The value of the four hexadecimal digits at `i`, or a negative number.
pub open spec fn spec_hex4(s: Seq<u8>, i: int) -> int {
    if 0 <= i && i + 4 <= s.len() && hex_val(s[i]) >= 0 && hex_val(s[i + 1]) >= 0 && hex_val(
        s[i + 2],
    ) >= 0 && hex_val(s[i + 3]) >= 0 {
        hex_val(s[i]) * 4096 + hex_val(s[i + 1]) * 256 + hex_val(s[i + 2]) * 16 + hex_val(s[i + 3])
    } else {
        -1
    }
}

/// The UTF-8 encoding of the code point `c`.
pub open spec fn utf8_bytes(c: int) -> Seq<u8> {
    if c < 0x80 {
        seq![c as u8]
    } else if c < 0x800 {
        seq![(0xc0 + c / 64) as u8, (0x80 + c % 64) as u8]
    } else if c < 0x10000 {
        seq![(0xe0 + c / 4096) as u8, (0x80 + (c / 64) % 64) as u8, (0x80 + c % 64) as u8]
    } else {
        seq![
            (0xf0 + c / 262144) as u8,
            (0x80 + (c / 4096) % 64) as u8,
            (0x80 + (c / 64) % 64) as u8,
            (0x80 + c % 64) as u8,
        ]
    }
}

/// The body of a string, read from `i` (just inside the opening quote) up to
/// and past the closing quote. `acc` holds the bytes decoded so far; the
/// result is the decoded content and the position after the closing quote.
pub open spec fn spec_string_body(s: Seq<u8>, i: int, acc: Seq<u8>) -> Option<(Seq<u8>, int)>
    decreases s.len() - i,
{
    if !(0 <= i < s.len()) {
        None
    } else if s[i] == QUOTE {
        Some((acc, i + 1))
    } else if s[i] == BACKSLASH {
        if i + 1 < s.len() {
            match spec_unescape(s[i + 1]) {
                Some(e) => spec_string_body(s, i + 2, acc.push(e)),
                None => if s[i + 1] == 0x75 {  // 'u'
                    let c1 = spec_hex4(s, i + 2);
                    if c1 < 0 {
                        None
                    } else if 0xd800 <= c1 < 0xdc00 {
                        // a high surrogate must pair with a low one
                        if i + 8 <= s.len() && s[i + 6] == BACKSLASH && s[i + 7] == 0x75 {
                            let c2 = spec_hex4(s, i + 8);
                            if 0xdc00 <= c2 < 0xe000 {
                                spec_string_body(
                                    s,
                                    i + 12,
                                    acc + utf8_bytes(0x10000 + (c1 - 0xd800) * 1024 + (c2 - 0xdc00)),
                                )
                            } else {
                                None
                            }
                        } else {
                            None
                        }
                    } else if 0xdc00 <= c1 < 0xe000 {
                        // a lone low surrogate is no code point
                        None
                    } else {
                        spec_string_body(s, i + 6, acc + utf8_bytes(c1))
                    }
                } else {
                    None
                },
            }
        } else {
            None
        }
    } else if s[i] < 0x20 {
        None
    } else {
        spec_string_body(s, i + 1, acc.push(s[i]))
    }
}

/// A string at `i`: an opening quote, a body, a closing quote.
pub open spec fn spec_parse_string(s: Seq<u8>, i: int) -> Option<(Seq<u8>, int)> {
    if 0 <= i < s.len() && s[i] == QUOTE {
        spec_string_body(s, i + 1, Seq::empty())
    } else {
        None
    }
}

pub fn parse_string(s: &[u8], i: usize) -> (r: Option<(Vec<u8>, usize)>)
    requires
        i <= s@.len(),
    ensures
        (match r {
            Some((v, j)) => spec_parse_string(s@, i as int) == Some((v@, j as int))
                && i < j <= s@.len(),
            None => spec_parse_string(s@, i as int) is None,
        }),
{
    let n = s.len();
    if i >= n || s[i] != QUOTE {
        return None;
    }
    let mut out: Vec<u8> = Vec::new();
    let mut j = i + 1;
    assert(out@ =~= Seq::<u8>::empty());
    loop
        invariant
            i + 1 <= j <= n,
            n == s@.len(),
            i < s@.len() && s@[i as int] == QUOTE,
            spec_string_body(s@, i as int + 1, Seq::empty())
                == spec_string_body(s@, j as int, out@),
        decreases n - j,
    {
        if j >= n {
            return None;
        }
        let c = s[j];
        if c == QUOTE {
            return Some((out, j + 1));
        }
        if c == BACKSLASH {
            if j + 1 >= n {
                return None;
            }
            match unescape(s[j + 1]) {
                Some(e) => {
                    out.push(e);
                    j = j + 2;
                },
                None => {
                    if s[j + 1] != 0x75 {
                        return None;
                    }
                    match hex4(s, j + 2) {
                        None => {
                            return None;
                        },
                        Some(c1) => {
                            if 0xd800 <= c1 && c1 < 0xdc00 {
                                if n - j >= 8 && s[j + 6] == BACKSLASH && s[j + 7] == 0x75 {
                                    match hex4(s, j + 8) {
                                        None => {
                                            return None;
                                        },
                                        Some(c2) => {
                                            if 0xdc00 <= c2 && c2 < 0xe000 {
                                                let cp = 0x10000 + (c1 - 0xd800) * 1024 + (c2
                                                    - 0xdc00);
                                                push_utf8(&mut out, cp);
                                                j = j + 12;
                                            } else {
                                                return None;
                                            }
                                        },
                                    }
                                } else {
                                    return None;
                                }
                            } else if 0xdc00 <= c1 && c1 < 0xe000 {
                                return None;
                            } else {
                                push_utf8(&mut out, c1);
                                j = j + 6;
                            }
                        },
                    }
                },
            }
        } else if c < 0x20 {
            return None;
        } else {
            out.push(c);
            j = j + 1;
        }
    }
}

/// The value of a sequence of decimal digit bytes.
pub open spec fn digits_val(d: Seq<u8>) -> int
    decreases d.len(),
{
    if d.len() == 0 {
        0
    } else {
        digits_val(d.drop_last()) * 10 + (d.last() - DIGIT_ZERO)
    }
}

/// The first position at or after `i` holding no digit (or the end).
pub open spec fn spec_skip_digits(s: Seq<u8>, i: int) -> int
    decreases s.len() - i,
{
    if 0 <= i < s.len() && is_digit(s[i]) {
        spec_skip_digits(s, i + 1)
    } else {
        i
    }
}

pub proof fn lemma_skip_digits_bounds(s: Seq<u8>, i: int)
    requires
        0 <= i <= s.len(),
    ensures
        i <= spec_skip_digits(s, i) <= s.len(),
    decreases s.len() - i,
{
    if i < s.len() && is_digit(s[i]) {
        lemma_skip_digits_bounds(s, i + 1);
    }
}

fn skip_digits(s: &[u8], i: usize) -> (r: usize)
    requires
        i <= s@.len(),
    ensures
        r == spec_skip_digits(s@, i as int),
        i <= r <= s@.len(),
{
    let n = s.len();
    let mut j = i;
    while j < n && s[j] >= DIGIT_ZERO && s[j] <= DIGIT_NINE
        invariant
            i <= j <= n,
            n == s@.len(),
            spec_skip_digits(s@, i as int) == spec_skip_digits(s@, j as int),
        decreases n - j,
    {
        j = j + 1;
    }
    j
}

/// An unsigned integer at `i`: either a lone zero, or a nonzero digit
/// followed by digits. The result is its value and the end position.
pub open spec fn spec_parse_uint(s: Seq<u8>, i: int) -> Option<(int, int)> {
    if !(0 <= i < s.len() && is_digit(s[i])) {
        None
    } else if s[i] == DIGIT_ZERO {
        Some((0, i + 1))
    } else {
        let j = spec_skip_digits(s, i);
        Some((digits_val(s.subrange(i, j)), j))
    }
}

proof fn lemma_digits_val_nonneg(d: Seq<u8>)
    requires
        forall|k: int| 0 <= k < d.len() ==> is_digit(#[trigger] d[k]),
    ensures
        digits_val(d) >= 0,
    decreases d.len(),
{
    if d.len() > 0 {
        lemma_digits_val_nonneg(d.drop_last());
    }
}

/// Extending a digit string multiplies its value by ten and adds the digit,
/// so the value never shrinks as the string grows.
proof fn lemma_digits_val_extend_ge(s: Seq<u8>, i: int, k: int, j: int)
    requires
        0 <= i <= k <= j <= s.len(),
        forall|m: int| i <= m < j ==> is_digit(#[trigger] s[m]),
    ensures
        digits_val(s.subrange(i, j)) >= digits_val(s.subrange(i, k)),
    decreases j - k,
{
    if k < j {
        assert(s.subrange(i, k + 1).drop_last() =~= s.subrange(i, k));
        assert(forall|m: int| 0 <= m < k + 1 - i ==> is_digit(#[trigger] s.subrange(i, k + 1)[m]));
        lemma_digits_val_nonneg(s.subrange(i, k));
        assert(digits_val(s.subrange(i, k + 1))
            == digits_val(s.subrange(i, k)) * 10 + (s[k] - DIGIT_ZERO));
        assert(digits_val(s.subrange(i, k)) * 10 >= digits_val(s.subrange(i, k))) by {
            lemma_digits_val_nonneg(s.subrange(i, k));
        }
        lemma_digits_val_extend_ge(s, i, k + 1, j);
    } else {
        assert(s.subrange(i, j) =~= s.subrange(i, k));
    }
}

/// Reads an unsigned integer, refusing one whose value does not fit in
/// `usize`.
pub fn parse_uint(s: &[u8], i: usize) -> (r: Option<(usize, usize)>)
    requires
        i <= s@.len(),
    ensures
        (match r {
            Some((v, j)) => spec_parse_uint(s@, i as int) == Some((v as int, j as int))
                && i < j <= s@.len(),
            None => (match spec_parse_uint(s@, i as int) {
                Some((v, _)) => v > usize::MAX,
                None => true,
            }),
        }),
{
    let n = s.len();
    if i >= n || s[i] < DIGIT_ZERO || s[i] > DIGIT_NINE {
        return None;
    }
    if s[i] == DIGIT_ZERO {
        return Some((0, i + 1));
    }
    let ghost end = spec_skip_digits(s@, i as int);
    proof {
        lemma_skip_digits_bounds(s@, i as int);
    }
    let mut acc: usize = 0;
    let mut j = i;
    while j < n && s[j] >= DIGIT_ZERO && s[j] <= DIGIT_NINE
        invariant
            i <= j <= n,
            n == s@.len(),
            i < s@.len() && is_digit(s@[i as int]) && s@[i as int] != DIGIT_ZERO,
            end == spec_skip_digits(s@, i as int),
            i <= end <= n,
            spec_skip_digits(s@, j as int) == end,
            j <= end,
            forall|m: int| i <= m < j ==> is_digit(#[trigger] s@[m]),
            acc == digits_val(s@.subrange(i as int, j as int)),
        decreases n - j,
    {
        assert(j < end) by {
            assert(is_digit(s@[j as int]));
            assert(spec_skip_digits(s@, j as int) == spec_skip_digits(s@, j + 1));
            lemma_skip_digits_bounds(s@, j + 1);
        }
        let d = (s[j] - DIGIT_ZERO) as usize;
        // The digits seen so far extend to the full digit string; if the
        // next step would overflow, the full value cannot fit either.
        if acc > usize::MAX / 10 || (acc == usize::MAX / 10 && d > usize::MAX % 10) {
            proof {
                assert(forall|m: int| i <= m < end ==> is_digit(#[trigger] s@[m])) by {
                    lemma_skip_digits_all_digits(s@, i as int);
                }
                assert(s@.subrange(i as int, j + 1).drop_last()
                    =~= s@.subrange(i as int, j as int));
                assert(digits_val(s@.subrange(i as int, j + 1))
                    == acc * 10 + d);
                lemma_digits_val_extend_ge(s@, i as int, j + 1, end);
                assert(acc * 10 + d > usize::MAX);
            }
            return None;
        }
        proof {
            assert(s@.subrange(i as int, j + 1).drop_last()
                =~= s@.subrange(i as int, j as int));
        }
        acc = acc * 10 + (d as usize);
        j = j + 1;
    }
    assert(j == end);
    assert(i < end) by {
        assert(spec_skip_digits(s@, i as int) == spec_skip_digits(s@, i as int + 1));
        lemma_skip_digits_bounds(s@, i as int + 1);
    }
    Some((acc, j))
}

/// Every byte before the first non-digit is a digit.
proof fn lemma_skip_digits_all_digits(s: Seq<u8>, i: int)
    requires
        0 <= i <= s.len(),
    ensures
        forall|m: int| i <= m < spec_skip_digits(s, i) ==> is_digit(#[trigger] s[m]),
    decreases s.len() - i,
{
    if i < s.len() && is_digit(s[i]) {
        lemma_skip_digits_all_digits(s, i + 1);
    }
}

} // verus!

verus! {

/// End of the integer part of a number whose first digit is at `j`:
/// a lone zero, or a nonzero digit followed by digits.
pub open spec fn spec_int_part_end(s: Seq<u8>, j: int) -> Option<int> {
    if !(0 <= j < s.len() && is_digit(s[j])) {
        None
    } else if s[j] == DIGIT_ZERO {
        Some(j + 1)
    } else {
        Some(spec_skip_digits(s, j))
    }
}

/// End of an optional fraction part starting at `k`.
pub open spec fn spec_frac_end(s: Seq<u8>, k: int) -> Option<int> {
    if 0 <= k < s.len() && s[k] == DOT {
        if k + 1 < s.len() && is_digit(s[k + 1]) {
            Some(spec_skip_digits(s, k + 1))
        } else {
            None
        }
    } else {
        Some(k)
    }
}

/// End of an optional exponent part starting at `m`.
pub open spec fn spec_exp_end(s: Seq<u8>, m: int) -> Option<int> {
    if 0 <= m < s.len() && (s[m] == 0x65 || s[m] == 0x45) {
        let p = if m + 2 <= s.len() && (s[m + 1] == PLUS || s[m + 1] == MINUS) {
            m + 2
        } else {
            m + 1
        };
        if p < s.len() && is_digit(s[p]) {
            Some(spec_skip_digits(s, p))
        } else {
            None
        }
    } else {
        Some(m)
    }
}

/// A JSON number at `i`: optional minus, integer part, optional fraction,
/// optional exponent. The result is the position after its last byte.
pub open spec fn spec_skip_number(s: Seq<u8>, i: int) -> Option<int> {
    if !(0 <= i < s.len()) {
        None
    } else {
        let j = if s[i] == MINUS {
            i + 1
        } else {
            i
        };
        match spec_int_part_end(s, j) {
            None => None,
            Some(k) => match spec_frac_end(s, k) {
                None => None,
                Some(m) => spec_exp_end(s, m),
            },
        }
    }
}

fn skip_number(s: &[u8], i: usize) -> (r: Option<usize>)
    requires
        i <= s@.len(),
    ensures
        (match r {
            Some(j) => spec_skip_number(s@, i as int) == Some(j as int) && i < j <= s@.len(),
            None => spec_skip_number(s@, i as int) is None,
        }),
{
    let n = s.len();
    if i >= n {
        return None;
    }
    let j = if s[i] == MINUS {
        i + 1
    } else {
        i
    };
    if j >= n || s[j] < DIGIT_ZERO || s[j] > DIGIT_NINE {
        return None;
    }
    let k = if s[j] == DIGIT_ZERO {
        j + 1
    } else {
        let k0 = skip_digits(s, j);
        assert(k0 > j) by {
            assert(spec_skip_digits(s@, j as int) == spec_skip_digits(s@, j + 1));
            lemma_skip_digits_bounds(s@, j + 1);
        }
        k0
    };
    let m = if k < n && s[k] == DOT {
        if k + 1 < n && s[k + 1] >= DIGIT_ZERO && s[k + 1] <= DIGIT_NINE {
            skip_digits(s, k + 1)
        } else {
            return None;
        }
    } else {
        k
    };
    if m < n && (s[m] == 0x65 || s[m] == 0x45) {
        let p = if m + 1 < n && (s[m + 1] == PLUS || s[m + 1] == MINUS) {
            m + 2
        } else {
            m + 1
        };
        if p < n && s[p] >= DIGIT_ZERO && s[p] <= DIGIT_NINE {
            let e = skip_digits(s, p);
            assert(e > p) by {
                assert(spec_skip_digits(s@, p as int) == spec_skip_digits(s@, p + 1));
                lemma_skip_digits_bounds(s@, p + 1);
            }
            Some(e)
        } else {
            None
        }
    } else {
        Some(m)
    }
}

/// Any JSON value at `i`, returning the position after it. Used to pass
/// over fields of a response that the tool does not read.
pub open spec fn spec_skip_value(s: Seq<u8>, i: int) -> Option<int>
    decreases s.len() - i, 0int,
{
    if !(0 <= i < s.len()) {
        None
    } else {
        let c = s[i];
        if c == QUOTE {
            match spec_parse_string(s, i) {
                Some((_, j)) => Some(j),
                None => None,
            }
        } else if c == LBRACKET {
            let q = spec_skip_ws(s, i + 1);
            if q < s.len() && s[q] == RBRACKET {
                Some(q + 1)
            } else if q <= i || q > s.len() {
                // unreachable: keeps the measure in range
                None
            } else {
                spec_skip_elems(s, q)
            }
        } else if c == LBRACE {
            let q = spec_skip_ws(s, i + 1);
            if q < s.len() && s[q] == RBRACE {
                Some(q + 1)
            } else if q <= i || q > s.len() {
                None
            } else {
                spec_skip_fields(s, q)
            }
        } else if c == MINUS || is_digit(c) {
            spec_skip_number(s, i)
        } else if c == 0x74 {  // "true"
            if i + 4 <= s.len() && s[i + 1] == 0x72 && s[i + 2] == 0x75 && s[i + 3] == 0x65 {
                Some(i + 4)
            } else {
                None
            }
        } else if c == 0x66 {  // "false"
            if i + 5 <= s.len() && s[i + 1] == 0x61 && s[i + 2] == 0x6c && s[i + 3] == 0x73
                && s[i + 4] == 0x65 {
                Some(i + 5)
            } else {
                None
            }
        } else if c == 0x6e {  // "null"
            if i + 4 <= s.len() && s[i + 1] == 0x75 && s[i + 2] == 0x6c && s[i + 3] == 0x6c {
                Some(i + 4)
            } else {
                None
            }
        } else {
            None
        }
    }
}

/// The elements of an array from the first element at `q` up to and past
/// the closing bracket.
pub open spec fn spec_skip_elems(s: Seq<u8>, q: int) -> Option<int>
    decreases s.len() - q, 1int,
{
    match spec_skip_value(s, q) {
        None => None,
        Some(j) => {
            let t = spec_skip_ws(s, j);
            if t < s.len() && s[t] == COMMA {
                let u = spec_skip_ws(s, t + 1);
                if u <= q || u > s.len() {
                    None
                } else {
                    spec_skip_elems(s, u)
                }
            } else if t < s.len() && s[t] == RBRACKET {
                Some(t + 1)
            } else {
                None
            }
        },
    }
}

/// The fields of an object from the first key at `q` up to and past the
/// closing brace.
pub open spec fn spec_skip_fields(s: Seq<u8>, q: int) -> Option<int>
    decreases s.len() - q, 1int,
{
    match spec_parse_string(s, q) {
        None => None,
        Some((_, j)) => {
            let t = spec_skip_ws(s, j);
            if !(t < s.len() && s[t] == COLON) {
                None
            } else {
                let u = spec_skip_ws(s, t + 1);
                if u <= q || u > s.len() {
                    None
                } else {
                    match spec_skip_value(s, u) {
                        None => None,
                        Some(v) => {
                            let w = spec_skip_ws(s, v);
                            if w < s.len() && s[w] == COMMA {
                                let x = spec_skip_ws(s, w + 1);
                                if x <= q || x > s.len() {
                                    None
                                } else {
                                    spec_skip_fields(s, x)
                                }
                            } else if w < s.len() && s[w] == RBRACE {
                                Some(w + 1)
                            } else {
                                None
                            }
                        },
                    }
                }
            }
        },
    }
}

pub fn skip_value(s: &[u8], i: usize) -> (r: Option<usize>)
    requires
        i <= s@.len(),
    ensures
        (match r {
            Some(j) => spec_skip_value(s@, i as int) == Some(j as int) && i < j <= s@.len(),
            None => spec_skip_value(s@, i as int) is None,
        }),
    decreases s@.len() - i,
{
    let n = s.len();
    if i >= n {
        return None;
    }
    let c = s[i];
    if c == QUOTE {
        match parse_string(s, i) {
            Some((_, j)) => Some(j),
            None => None,
        }
    } else if c == LBRACKET {
        let q0 = skip_ws(s, i + 1);
        if q0 < n && s[q0] == RBRACKET {
            return Some(q0 + 1);
        }
        let mut q = q0;
        loop
            invariant
                i < q <= n,
                n == s@.len(),
                spec_skip_value(s@, i as int) == spec_skip_elems(s@, q as int),
            decreases n - q,
        {
            match skip_value(s, q) {
                None => {
                    return None;
                },
                Some(j) => {
                    let t = skip_ws(s, j);
                    if t < n && s[t] == COMMA {
                        let u = skip_ws(s, t + 1);
                        assert(q < u && u <= n);
                        q = u;
                    } else if t < n && s[t] == RBRACKET {
                        return Some(t + 1);
                    } else {
                        return None;
                    }
                },
            }
        }
    } else if c == LBRACE {
        let q0 = skip_ws(s, i + 1);
        if q0 < n && s[q0] == RBRACE {
            return Some(q0 + 1);
        }
        let mut q = q0;
        loop
            invariant
                i < q <= n,
                n == s@.len(),
                spec_skip_value(s@, i as int) == spec_skip_fields(s@, q as int),
            decreases n - q,
        {
            match parse_string(s, q) {
                None => {
                    return None;
                },
                Some((_, j)) => {
                    let t = skip_ws(s, j);
                    if !(t < n && s[t] == COLON) {
                        return None;
                    }
                    let u = skip_ws(s, t + 1);
                    assert(q < u && u <= n);
                    match skip_value(s, u) {
                        None => {
                            return None;
                        },
                        Some(v) => {
                            let w = skip_ws(s, v);
                            if w < n && s[w] == COMMA {
                                let x = skip_ws(s, w + 1);
                                assert(q < x && x <= n);
                                q = x;
                            } else if w < n && s[w] == RBRACE {
                                return Some(w + 1);
                            } else {
                                return None;
                            }
                        },
                    }
                },
            }
        }
    } else if c == MINUS || (c >= DIGIT_ZERO && c <= DIGIT_NINE) {
        skip_number(s, i)
    } else if c == 0x74 {
        if n - i >= 4 && s[i + 1] == 0x72 && s[i + 2] == 0x75 && s[i + 3] == 0x65 {
            Some(i + 4)
        } else {
            None
        }
    } else if c == 0x66 {
        if n - i >= 5 && s[i + 1] == 0x61 && s[i + 2] == 0x6c && s[i + 3] == 0x73
            && s[i + 4] == 0x65 {
            Some(i + 5)
        } else {
            None
        }
    } else if c == 0x6e {
        if n - i >= 4 && s[i + 1] == 0x75 && s[i + 2] == 0x6c && s[i + 3] == 0x6c {
            Some(i + 4)
        } else {
            None
        }
    } else {
        None
    }
}

} // verus!

verus! {

/// The byte strings of a sequence of byte vectors.
pub open spec fn views_of(v: Seq<Vec<u8>>) -> Seq<Seq<u8>> {
    v.map_values(|e: Vec<u8>| e@)
}

/// The elements of an array of strings from the first element at `q` up to
/// and past the closing bracket. `acc` holds the strings read so far.
pub open spec fn spec_string_elems(s: Seq<u8>, q: int, acc: Seq<Seq<u8>>) -> Option<
    (Seq<Seq<u8>>, int),
>
    decreases s.len() - q,
{
    match spec_parse_string(s, q) {
        None => None,
        Some((x, j)) => {
            let t = spec_skip_ws(s, j);
            if t < s.len() && s[t] == COMMA {
                let u = spec_skip_ws(s, t + 1);
                if u <= q || u > s.len() {
                    // unreachable: keeps the measure in range
                    None
                } else {
                    spec_string_elems(s, u, acc.push(x))
                }
            } else if t < s.len() && s[t] == RBRACKET {
                Some((acc.push(x), t + 1))
            } else {
                None
            }
        },
    }
}

/// An array whose elements are all strings, at `i`.
pub open spec fn spec_parse_string_array(s: Seq<u8>, i: int) -> Option<(Seq<Seq<u8>>, int)> {
    if 0 <= i < s.len() && s[i] == LBRACKET {
        let q = spec_skip_ws(s, i + 1);
        if q < s.len() && s[q] == RBRACKET {
            Some((Seq::empty(), q + 1))
        } else {
            spec_string_elems(s, q, Seq::empty())
        }
    } else {
        None
    }
}

pub fn parse_string_array(s: &[u8], i: usize) -> (r: Option<(Vec<Vec<u8>>, usize)>)
    requires
        i <= s@.len(),
    ensures
        (match r {
            Some((v, j)) => spec_parse_string_array(s@, i as int) == Some(
                (views_of(v@), j as int),
            ) && i < j <= s@.len(),
            None => spec_parse_string_array(s@, i as int) is None,
        }),
{
    let n = s.len();
    if i >= n || s[i] != LBRACKET {
        return None;
    }
    let q0 = skip_ws(s, i + 1);
    let mut out: Vec<Vec<u8>> = Vec::new();
    assert(views_of(out@) =~= Seq::<Seq<u8>>::empty());
    if q0 < n && s[q0] == RBRACKET {
        return Some((out, q0 + 1));
    }
    let mut q = q0;
    loop
        invariant
            i < q <= n,
            n == s@.len(),
            spec_parse_string_array(s@, i as int) == spec_string_elems(
                s@,
                q as int,
                views_of(out@),
            ),
        decreases n - q,
    {
        match parse_string(s, q) {
            None => {
                return None;
            },
            Some((x, j)) => {
                let ghost old_views = views_of(out@);
                let ghost xv = x@;
                let t = skip_ws(s, j);
                if t < n && s[t] == COMMA {
                    let u = skip_ws(s, t + 1);
                    assert(q < u && u <= n);
                    out.push(x);
                    assert(views_of(out@) =~= old_views.push(xv));
                    q = u;
                } else if t < n && s[t] == RBRACKET {
                    out.push(x);
                    assert(views_of(out@) =~= old_views.push(xv));
                    return Some((out, t + 1));
                } else {
                    return None;
                }
            },
        }
    }
}

} // verus!
