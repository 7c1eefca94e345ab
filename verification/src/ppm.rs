//! Reading a plain-text pixel map: lines whose first byte is `#` are
//! comments, the rest is whitespace-separated tokens — a magic token,
//! width, height, the maximum channel value, and then three channel
//! values per pixel, row-major.

use vstd::prelude::*;

use crate::board::{deduped_from, BoardData};
use crate::palette::RGB;

verus! {

/// ASCII whitespace, as the tokenizer splits on it: space, tab, line
/// feed, vertical tab, form feed, carriage return.
pub open spec fn is_ws(b: u8) -> bool {
    b == 32 || 9 <= b <= 13
}

pub open spec fn is_digit(b: u8) -> bool {
    48 <= b <= 57
}

/// The text from position `i` on with comment lines removed. A comment
/// runs from a `#` at the start of a line to the line's end; its closing
/// newline is dropped with it, which splits tokens just as keeping it
/// would.
pub open spec fn strip_from(s: Seq<u8>, i: int, in_comment: bool, at_start: bool) -> Seq<u8>
    decreases s.len() - i,
{
    if i < 0 || i >= s.len() {
        Seq::empty()
    } else if in_comment {
        if s[i] == 10 {
            strip_from(s, i + 1, false, true)
        } else {
            strip_from(s, i + 1, true, false)
        }
    } else if at_start && s[i] == 35 {
        strip_from(s, i + 1, true, false)
    } else {
        seq![s[i]] + strip_from(s, i + 1, false, s[i] == 10)
    }
}

pub open spec fn strip_comments(s: Seq<u8>) -> Seq<u8> {
    strip_from(s, 0, false, true)
}

/// The maximal whitespace-free runs of `s` from position `i` on, with
/// `cur` the run in progress.
pub open spec fn tokens_from(s: Seq<u8>, i: int, cur: Seq<u8>) -> Seq<Seq<u8>>
    decreases s.len() - i,
{
    if i < 0 || i >= s.len() {
        if cur.len() > 0 {
            seq![cur]
        } else {
            Seq::empty()
        }
    } else if is_ws(s[i]) {
        if cur.len() > 0 {
            seq![cur] + tokens_from(s, i + 1, Seq::<u8>::empty())
        } else {
            tokens_from(s, i + 1, Seq::<u8>::empty())
        }
    } else {
        tokens_from(s, i + 1, cur.push(s[i]))
    }
}

/// The tokens of a pixel-map text: comment lines removed, the rest split
/// on whitespace.
pub open spec fn ppm_tokens(s: Seq<u8>) -> Seq<Seq<u8>> {
    tokens_from(strip_comments(s), 0, Seq::<u8>::empty())
}

/// The views of a vector of byte tokens.
pub open spec fn token_views(toks: Seq<Vec<u8>>) -> Seq<Seq<u8>> {
    toks.map_values(|t: Vec<u8>| t@)
}

/// Remove the comment lines of `text`.
fn strip_comment_lines(text: &Vec<u8>) -> (out: Vec<u8>)
    ensures
        out@ == strip_comments(text@),
{
    let mut out: Vec<u8> = Vec::new();
    let mut in_comment = false;
    let mut at_start = true;
    let mut i: usize = 0;
    proof {
        assert(out@ =~= Seq::<u8>::empty());
        assert(Seq::<u8>::empty() + strip_comments(text@) =~= strip_comments(text@));
    }
    while i < text.len()
        invariant
            0 <= i <= text@.len(),
            strip_comments(text@) == out@ + strip_from(text@, i as int, in_comment, at_start),
        decreases text@.len() - i,
    {
        let b = text[i];
        let ghost pre = out@;
        let ghost rest = strip_from(text@, i as int, in_comment, at_start);
        if in_comment {
            if b == 10 {
                in_comment = false;
                at_start = true;
                proof {
                    assert(rest == strip_from(text@, i + 1, false, true));
                    assert(strip_comments(text@) == out@ + strip_from(text@, i + 1, in_comment, at_start));
                }
            } else {
                proof {
                    assert(rest == strip_from(text@, i + 1, true, false));
                    assert(strip_comments(text@) == out@ + strip_from(text@, i + 1, in_comment, at_start));
                }
            }
        } else if at_start && b == 35 {
            in_comment = true;
            at_start = false;
            proof {
                assert(rest == strip_from(text@, i + 1, true, false));
                assert(strip_comments(text@) == out@ + strip_from(text@, i + 1, in_comment, at_start));
            }
        } else {
            out.push(b);
            at_start = b == 10;
            in_comment = false;
            proof {
                assert(rest == seq![b] + strip_from(text@, i + 1, false, b == 10));
                assert(out@ =~= pre + seq![b]);
                assert((pre + seq![b]) + strip_from(text@, i + 1, false, b == 10) =~= pre + (
                seq![b] + strip_from(text@, i + 1, false, b == 10)));
                assert(strip_comments(text@) == out@ + strip_from(text@, i + 1, in_comment, at_start));
            }
        }
        i += 1;
    }
    proof {
        assert(out@ + Seq::<u8>::empty() =~= out@);
    }
    out
}

/// Split `text` into tokens, dropping comment lines first.
pub fn tokenize(text: &Vec<u8>) -> (toks: Vec<Vec<u8>>)
    ensures
        token_views(toks@) == ppm_tokens(text@),
{
    let stripped = strip_comment_lines(text);
    let mut toks: Vec<Vec<u8>> = Vec::new();
    let mut cur: Vec<u8> = Vec::new();
    let mut i: usize = 0;
    proof {
        assert(token_views(toks@) =~= Seq::<Seq<u8>>::empty());
        assert(cur@ =~= Seq::<u8>::empty());
        assert(Seq::<Seq<u8>>::empty() + tokens_from(stripped@, 0, cur@) =~= tokens_from(
            stripped@,
            0,
            cur@,
        ));
    }
    while i < stripped.len()
        invariant
            0 <= i <= stripped@.len(),
            ppm_tokens(text@) == token_views(toks@) + tokens_from(stripped@, i as int, cur@),
        decreases stripped@.len() - i,
    {
        let b = stripped[i];
        let ghost pre = token_views(toks@);
        let ghost oldcur = cur@;
        let ghost rest = tokens_from(stripped@, i as int, cur@);
        if b == 32 || (9 <= b && b <= 13) {
            proof {
                assert(is_ws(stripped@[i as int]));
            }
            if cur.len() > 0 {
                toks.push(cur);
                cur = Vec::new();
                proof {
                    assert(cur@ =~= Seq::<u8>::empty());
                    assert(rest == seq![oldcur] + tokens_from(stripped@, i + 1, cur@));
                    assert(token_views(toks@) =~= pre + seq![oldcur]);
                    assert((pre + seq![oldcur]) + tokens_from(stripped@, i + 1, cur@) =~= pre + (
                    seq![oldcur] + tokens_from(stripped@, i + 1, cur@)));
                    assert(ppm_tokens(text@) == token_views(toks@) + tokens_from(
                        stripped@,
                        i + 1,
                        cur@,
                    ));
                }
            } else {
                proof {
                    assert(oldcur =~= Seq::<u8>::empty());
                    assert(rest == tokens_from(stripped@, i + 1, Seq::<u8>::empty()));
                    assert(ppm_tokens(text@) == token_views(toks@) + tokens_from(
                        stripped@,
                        i + 1,
                        cur@,
                    ));
                }
            }
        } else {
            cur.push(b);
            proof {
                assert(!is_ws(stripped@[i as int]));
                assert(cur@ == oldcur.push(b));
                assert(rest == tokens_from(stripped@, i + 1, cur@));
                assert(ppm_tokens(text@) == token_views(toks@) + tokens_from(
                    stripped@,
                    i + 1,
                    cur@,
                ));
            }
        }
        i += 1;
    }
    if cur.len() > 0 {
        let ghost pre = token_views(toks@);
        toks.push(cur);
        proof {
            assert(token_views(toks@) =~= pre + seq![toks@.last()@]);
        }
    } else {
        proof {
            assert(token_views(toks@) + Seq::<Seq<u8>>::empty() =~= token_views(toks@));
        }
    }
    toks
}

pub open spec fn all_digits(s: Seq<u8>) -> bool {
    forall|i: int| 0 <= i < s.len() ==> is_digit(#[trigger] s[i])
}

/// A well-formed decimal token: digits, or a `+` followed by digits.
pub open spec fn dec_wf(t: Seq<u8>) -> bool {
    if t.len() == 0 {
        false
    } else if t[0] == 43 {
        t.len() > 1 && all_digits(t.skip(1))
    } else {
        all_digits(t)
    }
}

/// The value of a digit string.
pub open spec fn dec_val(s: Seq<u8>) -> int
    decreases s.len(),
{
    if s.len() == 0 {
        0
    } else {
        dec_val(s.drop_last()) * 10 + (s.last() - 48)
    }
}

/// The value of a well-formed decimal token.
pub open spec fn token_val(t: Seq<u8>) -> int {
    if t.len() > 0 && t[0] == 43 {
        dec_val(t.skip(1))
    } else {
        dec_val(t)
    }
}

pub proof fn lemma_dec_val_nonneg(s: Seq<u8>)
    requires
        all_digits(s),
    ensures
        dec_val(s) >= 0,
    decreases s.len(),
{
    if s.len() > 0 {
        assert(is_digit(s[s.len() - 1]));
        assert forall|i: int| 0 <= i < s.drop_last().len() implies is_digit(
            #[trigger] s.drop_last()[i],
        ) by {
            assert(s.drop_last()[i] == s[i]);
        }
        lemma_dec_val_nonneg(s.drop_last());
    }
}

/// A digit string is worth at least any of its prefixes.
pub proof fn lemma_dec_val_prefix(s: Seq<u8>, j: int)
    requires
        all_digits(s),
        0 <= j <= s.len(),
    ensures
        dec_val(s.take(j)) <= dec_val(s),
    decreases s.len(),
{
    if j == s.len() {
        assert(s.take(j) =~= s);
    } else {
        assert forall|i: int| 0 <= i < s.drop_last().len() implies is_digit(
            #[trigger] s.drop_last()[i],
        ) by {
            assert(s.drop_last()[i] == s[i]);
        }
        assert(s.take(j) =~= s.drop_last().take(j));
        lemma_dec_val_prefix(s.drop_last(), j);
        lemma_dec_val_nonneg(s.drop_last());
        assert(is_digit(s[s.len() - 1]));
        assert(dec_val(s) == dec_val(s.drop_last()) * 10 + (s.last() - 48));
        assert(dec_val(s.drop_last()) * 10 >= dec_val(s.drop_last())) by (nonlinear_arith)
            requires
                dec_val(s.drop_last()) >= 0,
        ;
    }
}

/// Parse a token as a channel value: digits, optionally after `+`, worth
/// at most 255.
pub fn parse_u8_token(t: &Vec<u8>) -> (r: Option<u8>)
    ensures
        match r {
            Some(v) => dec_wf(t@) && token_val(t@) == v as int,
            None => !(dec_wf(t@) && token_val(t@) <= u8::MAX),
        },
{
    let start: usize = if t.len() > 0 && t[0] == 43 {
        1
    } else {
        0
    };
    if t.len() == start {
        return None;
    }
    let ghost digits = t@.skip(start as int);
    let mut acc: u32 = 0;
    let mut j: usize = start;
    proof {
        assert(digits.take(0) =~= Seq::<u8>::empty());
    }
    while j < t.len()
        invariant
            start <= j <= t@.len(),
            start == 1 <==> (t@.len() > 0 && t@[0] == 43),
            start <= 1,
            t@.len() > start,
            digits == t@.skip(start as int),
            all_digits(digits.take(j - start)),
            acc as int == dec_val(digits.take(j - start)),
            acc <= 255,
        decreases t@.len() - j,
    {
        let b = t[j];
        proof {
            assert(digits[j - start] == t@[j as int]);
            assert(digits.take(j - start + 1).drop_last() =~= digits.take(j - start));
            assert(digits.take(j - start + 1).last() == digits[j - start]);
        }
        if !(48 <= b && b <= 57) {
            proof {
                assert(!is_digit(t@[j as int]));
            }
            return None;
        }
        let d = (b - 48) as u32;
        let na = acc * 10 + d;
        if na > 255 {
            proof {
                if dec_wf(t@) {
                    if start == 0 {
                        assert(t@.skip(0) =~= t@);
                    }
                    assert(all_digits(digits));
                    lemma_dec_val_prefix(digits, j - start + 1);
                    assert(dec_val(digits.take(j - start + 1)) == na);
                    assert(token_val(t@) == dec_val(digits));
                }
            }
            return None;
        }
        acc = na;
        j += 1;
    }
    proof {
        assert(digits.take(t@.len() - start) =~= digits);
        if start == 0 {
            assert(t@.skip(0) =~= t@);
        }
    }
    Some(acc as u8)
}

/// Parse a token as a dimension: digits, optionally after `+`, within
/// the machine's word.
pub fn parse_usize_token(t: &Vec<u8>) -> (r: Option<usize>)
    ensures
        match r {
            Some(v) => dec_wf(t@) && token_val(t@) == v as int,
            None => !(dec_wf(t@) && token_val(t@) <= usize::MAX),
        },
{
    let start: usize = if t.len() > 0 && t[0] == 43 {
        1
    } else {
        0
    };
    if t.len() == start {
        return None;
    }
    let ghost digits = t@.skip(start as int);
    let mut acc: usize = 0;
    let mut j: usize = start;
    proof {
        assert(digits.take(0) =~= Seq::<u8>::empty());
    }
    while j < t.len()
        invariant
            start <= j <= t@.len(),
            start == 1 <==> (t@.len() > 0 && t@[0] == 43),
            start <= 1,
            t@.len() > start,
            digits == t@.skip(start as int),
            all_digits(digits.take(j - start)),
            acc as int == dec_val(digits.take(j - start)),
        decreases t@.len() - j,
    {
        let b = t[j];
        proof {
            assert(digits[j - start] == t@[j as int]);
            assert(digits.take(j - start + 1).drop_last() =~= digits.take(j - start));
            assert(digits.take(j - start + 1).last() == digits[j - start]);
        }
        if !(48 <= b && b <= 57) {
            proof {
                assert(!is_digit(t@[j as int]));
            }
            return None;
        }
        let d = (b - 48) as usize;
        proof {
            vstd::arithmetic::div_mod::lemma_fundamental_div_mod(usize::MAX as int, 10);
            vstd::arithmetic::div_mod::lemma_mod_bound(usize::MAX as int, 10);
        }
        if acc > usize::MAX / 10 {
            proof {
                assert(acc as int * 10 + d > usize::MAX) by (nonlinear_arith)
                    requires
                        acc as int >= usize::MAX as int / 10 + 1,
                        usize::MAX as int == 10 * (usize::MAX as int / 10) + (usize::MAX as int
                            % 10),
                        usize::MAX as int % 10 < 10,
                        d >= 0,
                ;
                if dec_wf(t@) {
                    if start == 0 {
                        assert(t@.skip(0) =~= t@);
                    }
                    assert(all_digits(digits));
                    lemma_dec_val_prefix(digits, j - start + 1);
                    assert(dec_val(digits.take(j - start + 1)) == acc as int * 10 + d);
                    assert(token_val(t@) == dec_val(digits));
                }
            }
            return None;
        }
        proof {
            assert(acc as int * 10 <= usize::MAX) by (nonlinear_arith)
                requires
                    0 <= acc as int <= usize::MAX as int / 10,
                    usize::MAX as int == 10 * (usize::MAX as int / 10) + (usize::MAX as int % 10),
                    usize::MAX as int % 10 >= 0,
            ;
        }
        let shifted = acc * 10;
        if shifted > usize::MAX - d {
            proof {
                if dec_wf(t@) {
                    if start == 0 {
                        assert(t@.skip(0) =~= t@);
                    }
                    assert(all_digits(digits));
                    lemma_dec_val_prefix(digits, j - start + 1);
                    assert(dec_val(digits.take(j - start + 1)) == acc as int * 10 + d);
                    assert(token_val(t@) == dec_val(digits));
                }
            }
            return None;
        }
        acc = shifted + d;
        j += 1;
    }
    proof {
        assert(digits.take(t@.len() - start) =~= digits);
        if start == 0 {
            assert(t@.skip(0) =~= t@);
        }
    }
    Some(acc)
}

/// Why a pixel-map text was rejected.
#[derive(Clone, Copy, Debug, PartialEq, Eq, Structural)]
pub enum PpmError {
    /// The token stream ended before a needed number.
    MissingToken,
    /// A token where a number was needed is not one, or does not fit.
    InvalidNumber,
    /// Width times height exceeds what a board can hold.
    ImageTooLarge,
    /// The image holds more than 256 distinct colors.
    TooManyColors,
}

/// A token that parses as a dimension.
pub open spec fn usize_ok(t: Seq<u8>) -> bool {
    dec_wf(t) && token_val(t) <= usize::MAX
}

/// A token that parses as a channel value.
pub open spec fn u8_ok(t: Seq<u8>) -> bool {
    dec_wf(t) && token_val(t) <= u8::MAX
}

/// Pixel `k` of a token stream: the three channel tokens after the magic
/// token, the two dimensions and the maximum channel value.
pub open spec fn ppm_pixel(toks: Seq<Seq<u8>>, k: int) -> RGB {
    RGB {
        r: token_val(toks[4 + 3 * k]) as u8,
        g: token_val(toks[4 + 3 * k + 1]) as u8,
        b: token_val(toks[4 + 3 * k + 2]) as u8,
    }
}

pub open spec fn ppm_pixels(toks: Seq<Seq<u8>>, m: int) -> Seq<RGB> {
    Seq::new(m as nat, |k: int| ppm_pixel(toks, k))
}

/// How reading a token stream ends: the first failure of the scan —
/// magic token, width, height, maximum channel value, then three channel
/// tokens per pixel — or `None` when a board can be built.
pub open spec fn ppm_error_of(toks: Seq<Seq<u8>>) -> Option<PpmError> {
    if toks.len() <= 1 {
        Some(PpmError::MissingToken)
    } else if !usize_ok(toks[1]) {
        Some(PpmError::InvalidNumber)
    } else if toks.len() <= 2 {
        Some(PpmError::MissingToken)
    } else if !usize_ok(toks[2]) {
        Some(PpmError::InvalidNumber)
    } else if toks.len() <= 3 {
        Some(PpmError::MissingToken)
    } else if !u8_ok(toks[3]) {
        Some(PpmError::InvalidNumber)
    } else {
        let w = token_val(toks[1]);
        let h = token_val(toks[2]);
        if w * h > usize::MAX || w * h > u32::MAX {
            Some(PpmError::ImageTooLarge)
        } else {
            let m = w * h;
            let limit = if toks.len() - 4 < 3 * m {
                toks.len() - 4
            } else {
                3 * m
            };
            if exists|j: int| 0 <= j < limit && !#[trigger] u8_ok(toks[4 + j]) {
                Some(PpmError::InvalidNumber)
            } else if limit < 3 * m {
                Some(PpmError::MissingToken)
            } else if ppm_pixels(toks, m).to_set().len() > 256 {
                Some(PpmError::TooManyColors)
            } else {
                None
            }
        }
    }
}

impl BoardData {
    /// Read a board from a pixel-map text: after the magic token come the
    /// width, the height, the maximum channel value, and three channel
    /// values per pixel; the pixels are then deduplicated into a palette.
    /// The first failure of that scan is the error.
    pub fn from_ppm_text(text: &Vec<u8>) -> (r: Result<Self, PpmError>)
        ensures
            match r {
                Ok(d) => ppm_error_of(ppm_tokens(text@)) is None && deduped_from(
                    d,
                    token_val(ppm_tokens(text@)[1]),
                    token_val(ppm_tokens(text@)[2]),
                    ppm_pixels(
                        ppm_tokens(text@),
                        token_val(ppm_tokens(text@)[1]) * token_val(ppm_tokens(text@)[2]),
                    ),
                ),
                Err(e) => ppm_error_of(ppm_tokens(text@)) == Some(e),
            },
    {
        let toks = tokenize(text);
        let ghost tv = token_views(toks@);

        // the magic token is skipped, never checked
        if toks.len() <= 1 {
            return Err(PpmError::MissingToken);
        }
        proof {
            assert(tv[1] == toks@[1]@);
        }
        let width = match parse_usize_token(&toks[1]) {
            Some(v) => v,
            None => {
                return Err(PpmError::InvalidNumber);
            },
        };
        if toks.len() <= 2 {
            return Err(PpmError::MissingToken);
        }
        proof {
            assert(tv[2] == toks@[2]@);
        }
        let height = match parse_usize_token(&toks[2]) {
            Some(v) => v,
            None => {
                return Err(PpmError::InvalidNumber);
            },
        };
        if toks.len() <= 3 {
            return Err(PpmError::MissingToken);
        }
        proof {
            assert(tv[3] == toks@[3]@);
        }
        let _max_color = match parse_u8_token(&toks[3]) {
            Some(v) => v,
            None => {
                return Err(PpmError::InvalidNumber);
            },
        };

        let m = match width.checked_mul(height) {
            Some(m) => m,
            None => {
                return Err(PpmError::ImageTooLarge);
            },
        };
        if m > u32::MAX as usize {
            return Err(PpmError::ImageTooLarge);
        }

        let mut pixels: Vec<RGB> = Vec::new();
        let mut t: usize = 4;
        let mut k: usize = 0;
        while k < m
            invariant
                0 <= k <= m,
                t == 4 + 3 * k,
                tv == token_views(toks@),
                tv == ppm_tokens(text@),
                tv.len() > 3,
                usize_ok(tv[1]),
                usize_ok(tv[2]),
                u8_ok(tv[3]),
                width as int == token_val(tv[1]),
                height as int == token_val(tv[2]),
                m == width * height,
                m <= u32::MAX,
                k > 0 ==> t <= tv.len(),
                pixels@.len() == k,
                forall|j: int| 0 <= j < k ==> #[trigger] pixels@[j] == ppm_pixel(tv, j),
                forall|j: int| 0 <= j < 3 * k ==> #[trigger] u8_ok(tv[4 + j]),
            decreases m - k,
        {
            if t >= toks.len() {
                proof {
                    lemma_scan_error(tv, width as int, height as int, 3 * (k as int), true);
                }
                return Err(PpmError::MissingToken);
            }
            proof {
                assert(tv[t as int] == toks@[t as int]@);
            }
            let red = match parse_u8_token(&toks[t]) {
                Some(v) => v,
                None => {
                    proof {
                        assert(!u8_ok(tv[4 + 3 * (k as int)]));
                        lemma_scan_error(tv, width as int, height as int, 3 * (k as int), false);
                    }
                    return Err(PpmError::InvalidNumber);
                },
            };
            t += 1;
            proof {
                assert(u8_ok(tv[4 + 3 * (k as int)]));
            }
            if t >= toks.len() {
                proof {
                    assert forall|j: int| 0 <= j < 3 * (k as int) + 1 implies #[trigger] u8_ok(
                        tv[4 + j],
                    ) by {}
                    lemma_scan_error(tv, width as int, height as int, 3 * (k as int) + 1, true);
                }
                return Err(PpmError::MissingToken);
            }
            proof {
                assert(tv[t as int] == toks@[t as int]@);
            }
            let green = match parse_u8_token(&toks[t]) {
                Some(v) => v,
                None => {
                    proof {
                        assert(!u8_ok(tv[4 + (3 * (k as int) + 1)]));
                        assert forall|j: int| 0 <= j < 3 * (k as int) + 1 implies #[trigger] u8_ok(
                            tv[4 + j],
                        ) by {}
                        lemma_scan_error(
                            tv,
                            width as int,
                            height as int,
                            3 * (k as int) + 1,
                            false,
                        );
                    }
                    return Err(PpmError::InvalidNumber);
                },
            };
            t += 1;
            proof {
                assert(u8_ok(tv[4 + (3 * (k as int) + 1)]));
            }
            if t >= toks.len() {
                proof {
                    assert forall|j: int| 0 <= j < 3 * (k as int) + 2 implies #[trigger] u8_ok(
                        tv[4 + j],
                    ) by {}
                    lemma_scan_error(tv, width as int, height as int, 3 * (k as int) + 2, true);
                }
                return Err(PpmError::MissingToken);
            }
            proof {
                assert(tv[t as int] == toks@[t as int]@);
            }
            let blue = match parse_u8_token(&toks[t]) {
                Some(v) => v,
                None => {
                    proof {
                        assert(!u8_ok(tv[4 + (3 * (k as int) + 2)]));
                        assert forall|j: int| 0 <= j < 3 * (k as int) + 2 implies #[trigger] u8_ok(
                            tv[4 + j],
                        ) by {}
                        lemma_scan_error(
                            tv,
                            width as int,
                            height as int,
                            3 * (k as int) + 2,
                            false,
                        );
                    }
                    return Err(PpmError::InvalidNumber);
                },
            };
            t += 1;
            proof {
                assert(u8_ok(tv[4 + (3 * (k as int) + 2)]));
            }

            pixels.push(RGB { r: red, g: green, b: blue });
            proof {
                assert(pixels@.last() == ppm_pixel(tv, k as int));
            }
            k += 1;
        }

        proof {
            assert(pixels@ =~= ppm_pixels(tv, m as int));
            assert(tv.len() - 4 >= 3 * (m as int));
        }
        match Self::from_pixels_checked(width, height, pixels) {
            Some(d) => {
                proof {
                    assert(ppm_error_of(tv) is None);
                }
                Ok(d)
            },
            None => {
                proof {
                    assert(ppm_error_of(tv) == Some(PpmError::TooManyColors));
                }
                Err(PpmError::TooManyColors)
            },
        }
    }
}

/// Inside the pixel scan, with the first `done` channel tokens good, the
/// outcome is decided at position `done`: a missing token when the
/// stream ends before it, a bad token otherwise.
proof fn lemma_scan_error(tv: Seq<Seq<u8>>, w: int, h: int, done: int, missing: bool)
    requires
        tv.len() > 3,
        usize_ok(tv[1]),
        usize_ok(tv[2]),
        u8_ok(tv[3]),
        w == token_val(tv[1]),
        h == token_val(tv[2]),
        0 <= w * h <= u32::MAX,
        0 <= done < 3 * (w * h),
        forall|j: int| 0 <= j < done ==> #[trigger] u8_ok(tv[4 + j]),
        missing ==> tv.len() - 4 <= done,
        !missing ==> tv.len() - 4 > done && !u8_ok(tv[4 + done]),
    ensures
        ppm_error_of(tv) == Some(
            if missing {
                PpmError::MissingToken
            } else {
                PpmError::InvalidNumber
            },
        ),
{
    let m = w * h;
    assert(u32::MAX as int <= usize::MAX as int);
    let limit = if tv.len() - 4 < 3 * m {
        tv.len() - 4
    } else {
        3 * m
    };
    if missing {
        assert(limit <= done);
        assert forall|j: int| 0 <= j < limit implies #[trigger] u8_ok(tv[4 + j]) by {}
        assert(limit < 3 * m);
    } else {
        assert(done < limit);
        assert(!u8_ok(tv[4 + done]));
    }
}

} // verus!
