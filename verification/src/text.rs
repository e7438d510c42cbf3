//! Reading numbers out of text: tokens between white space, lines, and
//! decimal integers.
//!
//! The text is taken byte by byte. White space is what ASCII calls so:
//! blank, tab, line feed, vertical tab, form feed and carriage return.

use vstd::prelude::*;

verus! {

/// The line feed.
pub const NEWLINE: u8 = 10;

/// Whether `b` is a byte of white space.
pub open spec fn is_space(b: u8) -> bool {
    b == 32 || (9 <= b && b <= 13)
}

/// Whether `b` is a byte of white space.
pub fn space(b: u8) -> (r: bool)
    ensures
        r == is_space(b),
{
    b == 32 || (9 <= b && b <= 13)
}

/// Where reading `s` byte by byte stands at its end: the tokens that have
/// ended, each by its first place and the place behind its last, and the
/// first place of a token that has not ended yet, or -1 where there is
/// none.
pub open spec fn span_scan(s: Seq<u8>) -> (Seq<(int, int)>, int)
    decreases s.len(),
{
    if s.len() == 0 {
        (Seq::empty(), -1)
    } else {
        let (done, open) = span_scan(s.drop_last());
        let i = s.len() - 1;
        if is_space(s[i]) {
            if open >= 0 {
                (done.push((open, i)), -1)
            } else {
                (done, -1)
            }
        } else if open >= 0 {
            (done, open)
        } else {
            (done, i)
        }
    }
}

/// The tokens of `s`, the longest runs of bytes that are no white space,
/// in their order: each by its first place and the place behind its last.
pub open spec fn token_spans(s: Seq<u8>) -> Seq<(int, int)> {
    let (done, open) = span_scan(s);
    if open >= 0 {
        done.push((open, s.len() as int))
    } else {
        done
    }
}

/// How many line feeds `s` holds at the places from `lo` up to `hi`.
pub open spec fn newlines_between(s: Seq<u8>, lo: int, hi: int) -> nat
    decreases hi - lo,
{
    if hi <= lo {
        0
    } else {
        newlines_between(s, lo, hi - 1) + if s[hi - 1] == NEWLINE {
            1nat
        } else {
            0nat
        }
    }
}

/// The line on which the token `t` of `s` stands, counting from 0 at the
/// line of the first token.
pub open spec fn line_of(s: Seq<u8>, t: int) -> nat {
    let spans = token_spans(s);
    newlines_between(s, spans[0].0, spans[t].0)
}

/// How many of the first `n` tokens of `s` stand on the line of the first
/// token.
pub open spec fn first_line_tokens(s: Seq<u8>, n: int) -> nat
    decreases n,
{
    if n <= 0 {
        0
    } else {
        first_line_tokens(s, n - 1) + if line_of(s, n - 1) == 0 {
            1nat
        } else {
            0nat
        }
    }
}

/// Number of lines from the line of the first token of `s` to the line of
/// its last token; 0 for a text without a token.
pub open spec fn text_rows(s: Seq<u8>) -> nat {
    let spans = token_spans(s);
    if spans.len() == 0 {
        0
    } else {
        line_of(s, spans.len() - 1) + 1
    }
}

/// Number of tokens on the line of the first token of `s`.
pub open spec fn text_cols(s: Seq<u8>) -> nat {
    first_line_tokens(s, token_spans(s).len() as int)
}

/// The number that the decimal digits of `s` at the places from `lo` up to
/// `hi` spell.
pub open spec fn digits_value(s: Seq<u8>, lo: int, hi: int) -> int
    decreases hi - lo,
{
    if hi <= lo {
        0
    } else {
        digits_value(s, lo, hi - 1) * 10 + (s[hi - 1] - 48)
    }
}

/// Whether `s` holds decimal digits at all places from `lo` up to `hi`.
pub open spec fn all_digits(s: Seq<u8>, lo: int, hi: int) -> bool {
    forall|i: int| lo <= i < hi ==> 48 <= #[trigger] s[i] <= 57
}

/// The integer that the bytes of `s` at the places from `lo` up to `hi`
/// spell: a sign, `+` or `-`, or none, and then one decimal digit or more.
/// `None` for bytes that spell no integer.
pub open spec fn parse_int(s: Seq<u8>, lo: int, hi: int) -> Option<int> {
    let body = if s[lo] == 45 || s[lo] == 43 {
        lo + 1
    } else {
        lo
    };
    if lo < hi && body < hi && all_digits(s, body, hi) {
        Some(
            if s[lo] == 45 {
                -digits_value(s, body, hi)
            } else {
                digits_value(s, body, hi)
            },
        )
    } else {
        None
    }
}

/// Line feeds are counted piece by piece.
pub proof fn lemma_newlines_split(s: Seq<u8>, lo: int, mid: int, hi: int)
    requires
        lo <= mid <= hi,
    ensures
        newlines_between(s, lo, hi) == newlines_between(s, lo, mid) + newlines_between(s, mid, hi),
    decreases hi - mid,
{
    if mid < hi {
        lemma_newlines_split(s, lo, mid, hi - 1);
    }
}

/// More digits spell no smaller a number.
pub proof fn lemma_digits_grow(s: Seq<u8>, lo: int, mid: int, hi: int)
    requires
        lo <= mid <= hi,
        all_digits(s, lo, hi),
    ensures
        0 <= digits_value(s, lo, mid) <= digits_value(s, lo, hi),
    decreases hi - mid,
{
    if mid < hi {
        lemma_digits_grow(s, lo, mid, hi - 1);
        assert(48 <= s[hi - 1] <= 57);
    } else {
        lemma_digits_nonnegative(s, lo, mid);
    }
}

/// Digits spell no negative number.
pub proof fn lemma_digits_nonnegative(s: Seq<u8>, lo: int, hi: int)
    requires
        all_digits(s, lo, hi),
    ensures
        0 <= digits_value(s, lo, hi),
    decreases hi - lo,
{
    if lo < hi {
        lemma_digits_nonnegative(s, lo, hi - 1);
        assert(48 <= s[hi - 1] <= 57);
    }
}

/// The tokens of `text`, each by its first place and the place behind its
/// last.
pub fn tokenize(text: &[u8]) -> (spans: Vec<(usize, usize)>)
    ensures
        spans@.len() == token_spans(text@).len(),
        forall|t: int|
            0 <= t < spans@.len() ==> (#[trigger] spans@[t]).0 == token_spans(text@)[t].0
                && spans@[t].1 == token_spans(text@)[t].1,
        forall|t: int|
            0 <= t < spans@.len() ==> (#[trigger] spans@[t]).0 < spans@[t].1 <= text@.len(),
        forall|t: int|
            0 < t < spans@.len() ==> spans@[t - 1].0 < (#[trigger] spans@[t]).0,
{
    let mut spans: Vec<(usize, usize)> = Vec::new();
    let mut open: Option<usize> = None;
    let mut i: usize = 0;
    while i < text.len()
        invariant
            i <= text@.len(),
            spans@.len() == span_scan(text@.subrange(0, i as int)).0.len(),
            forall|t: int|
                0 <= t < spans@.len() ==> (#[trigger] spans@[t]).0 == span_scan(
                    text@.subrange(0, i as int),
                ).0[t].0 && spans@[t].1 == span_scan(text@.subrange(0, i as int)).0[t].1,
            match open {
                Some(start) => start == span_scan(text@.subrange(0, i as int)).1 && start < i,
                None => span_scan(text@.subrange(0, i as int)).1 == -1,
            },
            forall|t: int| 0 <= t < spans@.len() ==> (#[trigger] spans@[t]).0 < spans@[t].1 <= i,
            forall|t: int| 0 < t < spans@.len() ==> spans@[t - 1].0 < (#[trigger] spans@[t]).0,
            forall|t: int|
                0 <= t < spans@.len() && open is Some ==> (#[trigger] spans@[t]).0 < open.unwrap(),
            forall|t: int| 0 <= t < spans@.len() ==> (#[trigger] spans@[t]).1 <= i,
            open is Some ==> forall|t: int|
                0 <= t < spans@.len() ==> (#[trigger] spans@[t]).1 <= open.unwrap(),
        decreases text@.len() - i,
    {
        proof {
            assert(text@.subrange(0, i + 1).drop_last() =~= text@.subrange(0, i as int));
        }
        if space(text[i]) {
            match open {
                Some(start) => {
                    spans.push((start, i));
                    open = None;
                },
                None => {},
            }
        } else {
            match open {
                Some(_) => {},
                None => {
                    open = Some(i);
                },
            }
        }
        i += 1;
    }
    proof {
        assert(text@.subrange(0, i as int) =~= text@);
    }
    match open {
        Some(start) => {
            spans.push((start, text.len()));
        },
        None => {},
    }
    spans
}

/// How many line feeds `text` holds at the places from `lo` up to `hi`.
pub fn count_newlines(text: &[u8], lo: usize, hi: usize) -> (n: usize)
    requires
        lo <= hi <= text@.len(),
    ensures
        n == newlines_between(text@, lo as int, hi as int),
        n <= hi - lo,
{
    let mut n: usize = 0;
    let mut i: usize = lo;
    while i < hi
        invariant
            lo <= i <= hi <= text@.len(),
            n == newlines_between(text@, lo as int, i as int),
            n <= i - lo,
        decreases hi - i,
    {
        if text[i] == NEWLINE {
            n += 1;
        }
        i += 1;
    }
    n
}

/// Largest number that can still take a further digit without leaving
/// the range of `i128` on the negative side.
const FLOOR_TENTH: i128 = -17014118346046923173168730371588410572;

/// The integer that the bytes of `text` at the places from `lo` up to
/// `hi` spell, or `None` where they spell none, or one that an `i128` does
/// not hold.
pub fn read_int(text: &[u8], lo: usize, hi: usize) -> (r: Option<i128>)
    requires
        lo < hi <= text@.len(),
    ensures
        r == (match parse_int(text@, lo as int, hi as int) {
            Some(v) => if i128::MIN <= v <= i128::MAX {
                Some(v as i128)
            } else {
                None
            },
            None => None,
        }),
{
    let negative = text[lo] == 45;
    let body = if text[lo] == 45 || text[lo] == 43 {
        lo + 1
    } else {
        lo
    };
    if body >= hi {
        return None;
    }
    let mut acc: i128 = 0;
    let mut k: usize = body;
    while k < hi
        invariant
            lo <= body <= k <= hi <= text@.len(),
            lo < hi,
            negative == (text@[lo as int] == 45),
            body == (if text@[lo as int] == 45 || text@[lo as int] == 43 {
                lo + 1
            } else {
                lo as int
            }),
            all_digits(text@, body as int, k as int),
            acc == -digits_value(text@, body as int, k as int),
            acc <= 0,
        decreases hi - k,
    {
        let b = text[k];
        if b < 48 || b > 57 {
            proof {
                if all_digits(text@, body as int, hi as int) {
                    assert(48 <= text@[k as int] <= 57);
                }
            }
            return None;
        }
        let d = (b - 48) as i128;
        if acc < FLOOR_TENTH || (acc == FLOOR_TENTH && d > 8) {
            proof {
                assert(digits_value(text@, body as int, k + 1) == digits_value(
                    text@,
                    body as int,
                    k as int,
                ) * 10 + d);
                assert(digits_value(text@, body as int, k + 1) > i128::MAX + 1);
                if all_digits(text@, body as int, hi as int) {
                    lemma_digits_grow(text@, body as int, k + 1, hi as int);
                }
            }
            return None;
        }
        acc = acc * 10 - d;
        k += 1;
    }
    if negative {
        Some(acc)
    } else if acc == i128::MIN {
        None
    } else {
        Some(-acc)
    }
}

/// The character of the decimal digit `d`.
pub open spec fn digit_char(d: int) -> char {
    ((48 + d) as u8) as char
}

/// The decimal digits of `n`, without leading zeros.
pub open spec fn natural_text(n: nat) -> Seq<char>
    decreases n,
{
    if n < 10 {
        seq![digit_char(n as int)]
    } else {
        natural_text(n / 10).push(digit_char(n as int % 10))
    }
}

/// How the integer `v` is written in decimal digits: a minus sign for a
/// negative number, then the digits without leading zeros.
pub open spec fn decimal_text(v: int) -> Seq<char> {
    if v < 0 {
        seq!['-'] + natural_text((-v) as nat)
    } else {
        natural_text(v as nat)
    }
}

/// The integer `v` in decimal digits.
///
/// Stands for `format!` of the standard library with the plain
/// placeholder, which writes an integer as `decimal_text` says: in decimal
/// digits, without leading zeros, with a minus sign before a negative
/// number.
#[verifier::external_body]
pub(crate) fn decimal(v: i128) -> (s: String)
    ensures
        s@ == decimal_text(v as int),
{
    format!("{}", v)
}

} // verus!
