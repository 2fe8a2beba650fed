use vstd::prelude::*;
use vstd::string::*;

use crate::solver::matrix::error::MatrixMarketError;

verus! {

/// An ASCII decimal digit.
pub open spec fn is_digit(b: u8) -> bool {
    48 <= b <= 57
}

/// Whitespace for MatrixMarket: any ASCII control character or space.
pub open spec fn is_ws(b: u8) -> bool {
    b <= 32
}

/// The ASCII lower-case form of a byte.
pub open spec fn lower(b: u8) -> u8 {
    if 65 <= b <= 90 {
        (b + 32) as u8
    } else {
        b
    }
}

/// The value of a sequence of decimal digits (0 for the empty sequence).
pub open spec fn digits_value(s: Seq<u8>) -> int
    decreases s.len(),
{
    if s.len() == 0 {
        0
    } else {
        digits_value(s.drop_last()) * 10 + (s.last() - 48)
    }
}

/// Every byte of `s` is a digit.
pub open spec fn all_digits(s: Seq<u8>) -> bool {
    forall|k: int| 0 <= k < s.len() ==> is_digit(#[trigger] s[k])
}

/// The value of a digit sequence grows with its length.
proof fn lemma_digits_value_monotone(s: Seq<u8>, k: int)
    requires
        all_digits(s),
        0 <= k <= s.len(),
    ensures
        0 <= digits_value(s.subrange(0, k)) <= digits_value(s),
    decreases s.len() - k,
{
    if k < s.len() {
        lemma_digits_value_monotone(s, k + 1);
        let t = s.subrange(0, k + 1);
        assert(t.drop_last() =~= s.subrange(0, k));
        assert(is_digit(s[k]));
        lemma_digits_value_nonneg(s.subrange(0, k));
    } else {
        assert(s.subrange(0, k) =~= s);
        lemma_digits_value_nonneg(s);
    }
}

proof fn lemma_digits_value_nonneg(s: Seq<u8>)
    requires
        all_digits(s),
    ensures
        digits_value(s) >= 0,
    decreases s.len(),
{
    if s.len() > 0 {
        assert(all_digits(s.drop_last())) by {
            assert forall|k: int| 0 <= k < s.drop_last().len() implies is_digit(#[trigger] s.drop_last()[k]) by {
                assert(is_digit(s[k]));
            }
        }
        lemma_digits_value_nonneg(s.drop_last());
        assert(is_digit(s[s.len() - 1]));
    }
}

/// Whether two byte strings are equal ignoring ASCII case.
pub fn ascii_eq_ignore_case(a: &[u8], b: &[u8]) -> (r: bool)
    ensures
        r == (a@.len() == b@.len() && forall|k: int| 0 <= k < a@.len() ==> lower(#[trigger] a@[k]) == lower(b@[k])),
{
    if a.len() != b.len() {
        return false;
    }
    let mut k: usize = 0;
    while k < a.len()
        invariant
            k <= a@.len() == b@.len(),
            forall|j: int| 0 <= j < k ==> lower(#[trigger] a@[j]) == lower(b@[j]),
        decreases a@.len() - k,
    {
        if to_lower(a[k]) != to_lower(b[k]) {
            return false;
        }
        k = k + 1;
    }
    true
}

/// The ASCII lower-case form of a byte.
fn to_lower(b: u8) -> (r: u8)
    ensures
        r == lower(b),
{
    if 65 <= b && b <= 90 {
        b + 32
    } else {
        b
    }
}

/// Parses a whole token as an unsigned decimal number: `None` when it is
/// empty, holds a non-digit, or does not fit in `usize`.
pub fn parse_usize_ascii(tok: &[u8]) -> (r: Option<usize>)
    ensures
        r is Some <==> tok@.len() > 0 && all_digits(tok@) && digits_value(tok@) <= usize::MAX,
        r matches Some(v) ==> v == digits_value(tok@),
{
    if tok.len() == 0 {
        return None;
    }
    let mut v: usize = 0;
    let mut k: usize = 0;
    while k < tok.len()
        invariant
            k <= tok@.len(),
            all_digits(tok@.subrange(0, k as int)),
            v == digits_value(tok@.subrange(0, k as int)),
        decreases tok@.len() - k,
    {
        let b = tok[k];
        let ghost pre = tok@.subrange(0, k as int);
        let ghost next = tok@.subrange(0, k + 1);
        proof {
            assert(next.drop_last() =~= pre);
        }
        if !(48 <= b && b <= 57) {
            return None;
        }
        proof {
            assert(all_digits(next)) by {
                assert forall|j: int| 0 <= j < next.len() implies is_digit(#[trigger] next[j]) by {
                    if j < k {
                        assert(next[j] == pre[j]);
                    }
                }
            }
        }
        let v10 = match v.checked_mul(10) {
            Some(x) => x,
            None => {
                proof {
                    assert(digits_value(next) == v * 10 + (b - 48));
                    lemma_overflow_none(tok@, k as int);
                }
                return None;
            },
        };
        v = match v10.checked_add((b - 48) as usize) {
            Some(x) => x,
            None => {
                proof {
                    assert(digits_value(next) == v * 10 + (b - 48));
                    lemma_overflow_none(tok@, k as int);
                }
                return None;
            },
        };
        k = k + 1;
    }
    proof {
        assert(tok@.subrange(0, tok@.len() as int) =~= tok@);
    }
    Some(v)
}

/// When the first `k + 1` bytes already exceed `usize::MAX`, the whole token does
/// too, or it is not all digits.
proof fn lemma_overflow_none(s: Seq<u8>, k: int)
    requires
        0 <= k < s.len(),
        all_digits(s.subrange(0, k + 1)),
        digits_value(s.subrange(0, k + 1)) > usize::MAX,
    ensures
        !(all_digits(s) && digits_value(s) <= usize::MAX),
{
    if all_digits(s) {
        lemma_digits_value_monotone(s, k + 1);
    }
}

/// Advances `i` over MatrixMarket whitespace (any byte up to the space).
pub fn skip_ws_ascii(buf: &[u8], i: &mut usize)
    ensures
        *old(i) > buf@.len() ==> *final(i) == *old(i),
        *old(i) <= buf@.len() ==> {
            &&& *old(i) <= *final(i) <= buf@.len()
            &&& forall|k: int| *old(i) <= k < *final(i) ==> is_ws(#[trigger] buf@[k])
            &&& *final(i) < buf@.len() ==> !is_ws(buf@[*final(i) as int])
        },
{
    while *i < buf.len() && buf[*i] <= 32
        invariant
            *old(i) <= *i,
            *old(i) <= buf@.len() ==> *i <= buf@.len(),
            *old(i) > buf@.len() ==> *i == *old(i),
            forall|k: int| *old(i) <= k < *i ==> is_ws(#[trigger] buf@[k]),
        decreases buf@.len() - *i,
    {
        *i = *i + 1;
    }
}

/// `buf[start..end]` is a maximal run of digits starting at `start`.
pub open spec fn digit_run(buf: Seq<u8>, start: int, end: int) -> bool {
    &&& 0 <= start < end <= buf.len()
    &&& forall|k: int| start <= k < end ==> is_digit(#[trigger] buf[k])
    &&& end < buf.len() ==> !is_digit(buf[end])
}

/// The digits `buf[start..=k]` are the shortest prefix of the run at `start`
/// whose value exceeds `max`.
pub open spec fn overflows_at(buf: Seq<u8>, start: int, k: int, max: int) -> bool {
    &&& 0 <= start <= k < buf.len()
    &&& forall|j: int| start <= j <= k ==> is_digit(#[trigger] buf[j])
    &&& digits_value(buf.subrange(start, k)) <= max
    &&& digits_value(buf.subrange(start, k + 1)) > max
}

/// Parses the unsigned decimal number at `*i`, moving `i` past it. `None`,
/// with `i` unchanged, when no digit stands at `*i`; `None`, with `i` at the
/// digit where the value stops fitting, when it does not fit in `usize`.
pub fn parse_usize_at(buf: &[u8], i: &mut usize) -> (r: Option<usize>)
    ensures
        r matches Some(v) ==> digit_run(buf@, *old(i) as int, *final(i) as int) && v == digits_value(
            buf@.subrange(*old(i) as int, *final(i) as int),
        ),
        r is None ==> {
            ||| (*old(i) >= buf@.len() || !is_digit(buf@[*old(i) as int])) && *final(i) == *old(i)
            ||| overflows_at(buf@, *old(i) as int, *final(i) as int, usize::MAX as int)
        },
        r is Some <==> *old(i) < buf@.len() && is_digit(buf@[*old(i) as int]) && !exists|k: int|
            overflows_at(buf@, *old(i) as int, k, usize::MAX as int),
{
    let start = *i;
    if *i >= buf.len() || !(48 <= buf[*i] && buf[*i] <= 57) {
        return None;
    }
    let mut v: usize = 0;
    proof {
        assert(buf@.subrange(start as int, start as int) =~= Seq::<u8>::empty());
    }
    while *i < buf.len()
        invariant
            start == *old(i),
            start <= *i <= buf@.len(),
            start < buf@.len(),
            is_digit(buf@[start as int]),
            forall|k: int| start <= k < *i ==> is_digit(#[trigger] buf@[k]),
            v == digits_value(buf@.subrange(start as int, *i as int)),
            forall|k: int| start <= k < *i ==> !overflows_at(buf@, start as int, k, usize::MAX as int),
        ensures
            start < *i <= buf@.len(),
            *i < buf@.len() ==> !is_digit(buf@[*i as int]),
            forall|k: int| start <= k < *i ==> is_digit(#[trigger] buf@[k]),
            v == digits_value(buf@.subrange(start as int, *i as int)),
            forall|k: int| start <= k < *i ==> !overflows_at(buf@, start as int, k, usize::MAX as int),
        decreases buf@.len() - *i,
    {
        let b = buf[*i];
        if !(48 <= b && b <= 57) {
            break;
        }
        let ghost pre = buf@.subrange(start as int, *i as int);
        let ghost next = buf@.subrange(start as int, *i + 1);
        proof {
            assert(next.drop_last() =~= pre);
            assert(digits_value(next) == v * 10 + (b - 48));
        }
        let v10 = match v.checked_mul(10) {
            Some(x) => x,
            None => {
                proof {
                    assert(buf@.subrange(start as int, *i + 1) =~= next);
                    assert(overflows_at(buf@, start as int, *i as int, usize::MAX as int));
                }
                return None;
            },
        };
        v = match v10.checked_add((b - 48) as usize) {
            Some(x) => x,
            None => {
                proof {
                    assert(buf@.subrange(start as int, *i + 1) =~= next);
                    assert(overflows_at(buf@, start as int, *i as int, usize::MAX as int));
                }
                return None;
            },
        };
        *i = *i + 1;
        proof {
            assert forall|k: int| start <= k < *i implies !overflows_at(buf@, start as int, k, usize::MAX as int) by {
                if k == *i - 1 {
                    assert(buf@.subrange(start as int, k + 1) =~= next);
                }
            }
        }
    }
    proof {
        assert(digit_run(buf@, start as int, *i as int));
        assert forall|k: int| !overflows_at(buf@, start as int, k, usize::MAX as int) by {
            if overflows_at(buf@, start as int, k, usize::MAX as int) && k >= *i {
                assert(is_digit(buf@[*i as int]));
            }
        }
    }
    Some(v)
}

/// Where the digits of a signed number at `i` start: past an optional `+` or `-`.
pub open spec fn after_sign(buf: Seq<u8>, i: int) -> int {
    if 0 <= i < buf.len() && (buf[i] == 43 || buf[i] == 45) {
        i + 1
    } else {
        i
    }
}

/// Parses the signed decimal number at `*i` (an optional `+` or `-`, then
/// digits), moving `i` past it. `None` when no digit follows the sign (with
/// `i` past the sign), or when the magnitude does not fit in `i64` (with `i`
/// at the digit where it stops fitting).
pub fn parse_i64_at(buf: &[u8], i: &mut usize) -> (r: Option<i64>)
    ensures
        ({
            let s = after_sign(buf@, *old(i) as int);
            let neg = *old(i) < buf@.len() && buf@[*old(i) as int] == 45;
            &&& *old(i) >= buf@.len() ==> r is None && *final(i) == *old(i)
            &&& r is Some ==> digits_value(buf@.subrange(s, *final(i) as int)) <= i64::MAX
            &&& r matches Some(v) ==> *old(i) < buf@.len() && digit_run(buf@, s, *final(i) as int) && v == (if neg {
                -digits_value(buf@.subrange(s, *final(i) as int))
            } else {
                digits_value(buf@.subrange(s, *final(i) as int))
            })
            &&& (r is None && *old(i) < buf@.len()) ==> {
                ||| (s >= buf@.len() || !is_digit(buf@[s])) && *final(i) == s
                ||| overflows_at(buf@, s, *final(i) as int, i64::MAX as int)
            }
            &&& r is Some <==> *old(i) < buf@.len() && s < buf@.len() && is_digit(buf@[s]) && !exists|k: int|
                overflows_at(buf@, s, k, i64::MAX as int)
        }),
{
    if *i >= buf.len() {
        return None;
    }
    let mut negative = false;
    if buf[*i] == 43 {
        *i = *i + 1;
    } else if buf[*i] == 45 {
        negative = true;
        *i = *i + 1;
    }
    let start = *i;
    if *i >= buf.len() || !(48 <= buf[*i] && buf[*i] <= 57) {
        return None;
    }
    let mut v: i64 = 0;
    proof {
        assert(buf@.subrange(start as int, start as int) =~= Seq::<u8>::empty());
    }
    while *i < buf.len()
        invariant
            start == after_sign(buf@, *old(i) as int),
            negative == (buf@[*old(i) as int] == 45),
            *old(i) < buf@.len(),
            start <= *i <= buf@.len(),
            start < buf@.len(),
            is_digit(buf@[start as int]),
            forall|k: int| start <= k < *i ==> is_digit(#[trigger] buf@[k]),
            v == digits_value(buf@.subrange(start as int, *i as int)),
            forall|k: int| start <= k < *i ==> !overflows_at(buf@, start as int, k, i64::MAX as int),
        ensures
            start < *i <= buf@.len(),
            *i < buf@.len() ==> !is_digit(buf@[*i as int]),
            forall|k: int| start <= k < *i ==> is_digit(#[trigger] buf@[k]),
            v == digits_value(buf@.subrange(start as int, *i as int)),
            forall|k: int| start <= k < *i ==> !overflows_at(buf@, start as int, k, i64::MAX as int),
        decreases buf@.len() - *i,
    {
        let b = buf[*i];
        if !(48 <= b && b <= 57) {
            break;
        }
        let ghost pre = buf@.subrange(start as int, *i as int);
        let ghost next = buf@.subrange(start as int, *i + 1);
        proof {
            assert(next.drop_last() =~= pre);
            assert(digits_value(next) == v * 10 + (b - 48));
            lemma_digits_value_nonneg(pre);
        }
        let v10 = match v.checked_mul(10) {
            Some(x) => x,
            None => {
                proof {
                    assert(buf@.subrange(start as int, *i + 1) =~= next);
                    assert(overflows_at(buf@, start as int, *i as int, i64::MAX as int));
                }
                return None;
            },
        };
        v = match v10.checked_add((b - 48) as i64) {
            Some(x) => x,
            None => {
                proof {
                    assert(buf@.subrange(start as int, *i + 1) =~= next);
                    assert(overflows_at(buf@, start as int, *i as int, i64::MAX as int));
                }
                return None;
            },
        };
        *i = *i + 1;
        proof {
            assert forall|k: int| start <= k < *i implies !overflows_at(buf@, start as int, k, i64::MAX as int) by {
                if k == *i - 1 {
                    assert(buf@.subrange(start as int, k + 1) =~= next);
                }
            }
        }
    }
    proof {
        assert(digit_run(buf@, start as int, *i as int));
        assert forall|k: int| !overflows_at(buf@, start as int, k, i64::MAX as int) by {
            if overflows_at(buf@, start as int, k, i64::MAX as int) && k >= *i {
                assert(is_digit(buf@[*i as int]));
            }
        }
        assert(all_digits(buf@.subrange(start as int, *i as int))) by {
            assert forall|k: int| 0 <= k < *i - start implies is_digit(#[trigger] buf@.subrange(start as int, *i as int)[k]) by {
                assert(is_digit(buf@[start + k]));
            }
        }
        lemma_digits_value_nonneg(buf@.subrange(start as int, *i as int));
    }
    if negative {
        Some(-v)
    } else {
        Some(v)
    }
}

/// A cursor over the whitespace-separated tokens of a line.
pub struct TokenIter<'a> {
    buf: &'a [u8],
    i: usize,
}

impl<'a> TokenIter<'a> {
    /// The bytes being split.
    pub closed spec fn spec_buf(&self) -> Seq<u8> {
        self.buf@
    }

    /// The position of the cursor.
    pub closed spec fn spec_pos(&self) -> int {
        self.i as int
    }

    /// A cursor at the start of `buf`.
    pub fn new(buf: &'a [u8]) -> (r: Self)
        ensures
            r.spec_buf() == buf@,
            r.spec_pos() == 0,
    {
        Self { buf, i: 0 }
    }

    /// The next token: the next maximal run of non-whitespace bytes, or `None`
    /// when only whitespace is left. Whitespace is any byte up to the space.
    pub fn next(&mut self) -> (r: Option<&'a [u8]>)
        requires
            old(self).spec_pos() <= old(self).spec_buf().len(),
        ensures
            final(self).spec_buf() == old(self).spec_buf(),
            ({
                let buf = old(self).spec_buf();
                let start = skip_ws_from(buf, old(self).spec_pos());
                if start >= buf.len() {
                    r is None && final(self).spec_pos() == buf.len()
                } else {
                    let end = token_end_from(buf, start);
                    r matches Some(tok) && tok@ == buf.subrange(start, end) && final(self).spec_pos() == end
                }
            }),
            final(self).spec_pos() <= final(self).spec_buf().len(),
    {
        let ghost p0 = self.i as int;
        proof {
            lemma_skip_ws_from(self.buf@, p0);
        }
        skip_ws_ascii(self.buf, &mut self.i);
        proof {
            lemma_skip_ws_unique(self.buf@, p0, self.i as int);
        }
        if self.i >= self.buf.len() {
            return None;
        }
        let start = self.i;
        while self.i < self.buf.len() && self.buf[self.i] > 32
            invariant
                self.buf@ == old(self).buf@,
                start <= self.i <= self.buf@.len(),
                start < self.buf@.len(),
                forall|k: int| start <= k < self.i ==> !is_ws(#[trigger] self.buf@[k]),
            decreases self.buf@.len() - self.i,
        {
            self.i = self.i + 1;
        }
        proof {
            lemma_token_end_unique(self.buf@, start as int, self.i as int);
        }
        Some(&self.buf[start..self.i])
    }
}

/// The first position at or after `i` that is not whitespace (or the end).
pub open spec fn skip_ws_from(b: Seq<u8>, i: int) -> int
    decreases b.len() - i,
{
    if 0 <= i < b.len() && is_ws(b[i]) {
        skip_ws_from(b, i + 1)
    } else {
        i
    }
}

/// The first position at or after `i` that is whitespace (or the end).
pub open spec fn token_end_from(b: Seq<u8>, i: int) -> int
    decreases b.len() - i,
{
    if 0 <= i < b.len() && !is_ws(b[i]) {
        token_end_from(b, i + 1)
    } else {
        i
    }
}

proof fn lemma_skip_ws_from(b: Seq<u8>, i: int)
    requires
        0 <= i <= b.len(),
    ensures
        i <= skip_ws_from(b, i) <= b.len(),
        forall|k: int| i <= k < skip_ws_from(b, i) ==> is_ws(#[trigger] b[k]),
        skip_ws_from(b, i) < b.len() ==> !is_ws(b[skip_ws_from(b, i)]),
    decreases b.len() - i,
{
    if i < b.len() && is_ws(b[i]) {
        lemma_skip_ws_from(b, i + 1);
    }
}

/// The whitespace run from `i` ends exactly at `j`.
proof fn lemma_skip_ws_unique(b: Seq<u8>, i: int, j: int)
    requires
        0 <= i <= j <= b.len(),
        forall|k: int| i <= k < j ==> is_ws(#[trigger] b[k]),
        j < b.len() ==> !is_ws(b[j]),
    ensures
        skip_ws_from(b, i) == j,
    decreases j - i,
{
    if i < j {
        lemma_skip_ws_unique(b, i + 1, j);
    }
}

proof fn lemma_token_end_from(b: Seq<u8>, i: int)
    requires
        0 <= i <= b.len(),
    ensures
        i <= token_end_from(b, i) <= b.len(),
        forall|k: int| i <= k < token_end_from(b, i) ==> !is_ws(#[trigger] b[k]),
        token_end_from(b, i) < b.len() ==> is_ws(b[token_end_from(b, i)]),
    decreases b.len() - i,
{
    if i < b.len() && !is_ws(b[i]) {
        lemma_token_end_from(b, i + 1);
    }
}

/// The non-whitespace run from `i` ends exactly at `j`.
proof fn lemma_token_end_unique(b: Seq<u8>, i: int, j: int)
    requires
        0 <= i <= j <= b.len(),
        forall|k: int| i <= k < j ==> !is_ws(#[trigger] b[k]),
        j < b.len() ==> is_ws(b[j]),
    ensures
        token_end_from(b, i) == j,
    decreases j - i,
{
    if i < j {
        lemma_token_end_unique(b, i + 1, j);
    }
}

/// The whitespace-separated tokens of `b` from position `i` on.
pub open spec fn tokens_from(b: Seq<u8>, i: int) -> Seq<Seq<u8>>
    decreases b.len() - i,
{
    if i < 0 || i >= b.len() {
        Seq::empty()
    } else {
        let s = skip_ws_from(b, i);
        if s >= b.len() {
            Seq::empty()
        } else {
            let e = token_end_from(b, s);
            if e <= i || e > b.len() {
                Seq::empty()
            } else {
                seq![b.subrange(s, e)] + tokens_from(b, e)
            }
        }
    }
}

/// The whitespace-separated tokens of a line.
pub open spec fn tokens(b: Seq<u8>) -> Seq<Seq<u8>> {
    tokens_from(b, 0)
}

/// Reading the next token from position `i` gives the first of the tokens
/// from `i`, and the rest are the tokens from where it stopped.
proof fn lemma_tokens_step(b: Seq<u8>, i: int)
    requires
        0 <= i <= b.len(),
    ensures
        ({
            let s = skip_ws_from(b, i);
            if s >= b.len() {
                tokens_from(b, i).len() == 0
            } else {
                let e = token_end_from(b, s);
                &&& i <= s < e <= b.len()
                &&& tokens_from(b, i).len() > 0
                &&& tokens_from(b, i)[0] == b.subrange(s, e)
                &&& tokens_from(b, i).drop_first() == tokens_from(b, e)
            }
        }),
{
    lemma_skip_ws_from(b, i);
    let s = skip_ws_from(b, i);
    if s < b.len() {
        lemma_token_end_from(b, s);
        let e = token_end_from(b, s);
        assert(e > s);
        assert((seq![b.subrange(s, e)] + tokens_from(b, e)).drop_first() =~= tokens_from(b, e));
    }
}

/// Unicode `White_Space`, the characters that `str::trim_end` removes.
pub open spec fn is_unicode_ws(c: char) -> bool {
    let u = c as u32;
    ||| 9 <= u <= 13
    ||| u == 32
    ||| u == 0x85
    ||| u == 0xa0
    ||| u == 0x1680
    ||| 0x2000 <= u <= 0x200a
    ||| u == 0x2028
    ||| u == 0x2029
    ||| u == 0x202f
    ||| u == 0x205f
    ||| u == 0x3000
}

/// `c` without its trailing Unicode whitespace.
pub open spec fn trim_ws_end(c: Seq<char>) -> Seq<char>
    decreases c.len(),
{
    if c.len() > 0 && is_unicode_ws(c.last()) {
        trim_ws_end(c.drop_last())
    } else {
        c
    }
}

/// The text that `String::from_utf8_lossy` decodes from `b`.
pub uninterp spec fn lossy_utf8(b: Seq<u8>) -> Seq<char>;

/// Wraps `String::from_utf8_lossy`: decodes `b` as UTF-8, replacing invalid
/// sequences; ASCII bytes decode to the same characters.
#[verifier::external_body]
fn utf8_lossy(b: &[u8]) -> (r: String)
    ensures
        r@ == lossy_utf8(b@),
        (forall|k: int| 0 <= k < b@.len() ==> #[trigger] b@[k] < 128) ==> r@ == b@.map_values(|x: u8| x as char),
{
    String::from_utf8_lossy(b).into_owned()
}

/// Whether `c` is Unicode whitespace.
fn is_unicode_space(c: char) -> (b: bool)
    ensures
        b == is_unicode_ws(c),
{
    let u = c as u32;
    (9 <= u && u <= 13) || u == 32 || u == 0x85 || u == 0xa0 || u == 0x1680 || (0x2000 <= u && u <= 0x200a)
        || u == 0x2028 || u == 0x2029 || u == 0x202f || u == 0x205f || u == 0x3000
}

/// The text without its trailing Unicode whitespace.
fn trim_end_owned(s: &str) -> (r: String)
    ensures
        r@ == trim_ws_end(s@),
{
    let n = s.unicode_len();
    let mut e = n;
    proof {
        assert(s@.subrange(0, n as int) =~= s@);
    }
    while e > 0 && is_unicode_space(s.get_char(e - 1))
        invariant
            e <= n,
            n == s@.len(),
            trim_ws_end(s@) == trim_ws_end(s@.subrange(0, e as int)),
        decreases e,
    {
        proof {
            let t = s@.subrange(0, e as int);
            assert(t.last() == s@[e - 1]);
            assert(t.drop_last() =~= s@.subrange(0, e - 1));
        }
        e = e - 1;
    }
    proof {
        let t = s@.subrange(0, e as int);
        if e > 0 {
            assert(t.last() == s@[e - 1]);
        }
    }
    String::from_str(s.substring_char(0, e))
}

/// How a line is shown in a message: decoded lossily, trailing whitespace removed.
pub open spec fn line_text(b: Seq<u8>) -> Seq<char> {
    trim_ws_end(lossy_utf8(b))
}

/// The text of a line as shown in messages.
pub fn line_lossy_trimmed(line: &[u8]) -> (r: String)
    ensures
        r@ == line_text(line@),
{
    let l = utf8_lossy(line);
    trim_end_owned(l.as_str())
}

/// The decimal digit character for `d < 10`.
pub open spec fn digit_char(d: int) -> char {
    (48 + d) as char
}

/// The decimal representation of `n`.
pub open spec fn decimal(n: nat) -> Seq<char>
    decreases n,
{
    if n < 10 {
        seq![digit_char(n as int)]
    } else {
        decimal(n / 10) + seq![digit_char((n % 10) as int)]
    }
}

/// Appends one decimal digit.
fn push_digit(s: &mut String, d: usize)
    requires
        d < 10,
    ensures
        final(s)@ == old(s)@ + seq![digit_char(d as int)],
{
    let t = match d {
        0 => "0",
        1 => "1",
        2 => "2",
        3 => "3",
        4 => "4",
        5 => "5",
        6 => "6",
        7 => "7",
        8 => "8",
        _ => "9",
    };
    proof {
        reveal_strlit("0");
        reveal_strlit("1");
        reveal_strlit("2");
        reveal_strlit("3");
        reveal_strlit("4");
        reveal_strlit("5");
        reveal_strlit("6");
        reveal_strlit("7");
        reveal_strlit("8");
        reveal_strlit("9");
        assert(t@ =~= seq![digit_char(d as int)]);
    }
    s.append(t);
}

/// Appends the decimal representation of `n`.
pub fn push_decimal(s: &mut String, n: usize)
    ensures
        final(s)@ == old(s)@ + decimal(n as nat),
    decreases n,
{
    if n >= 10 {
        push_decimal(s, n / 10);
    }
    push_digit(s, n % 10);
    proof {
        assert(final(s)@ =~= old(s)@ + decimal(n as nat));
    }
}

/// The value type of a MatrixMarket coordinate file.
#[derive(Debug, Clone, Copy, PartialEq, Eq, Structural)]
pub enum MmField {
    Integer,
    Real,
}

/// Two byte strings are equal ignoring ASCII case.
pub open spec fn eq_ic(a: Seq<u8>, b: Seq<u8>) -> bool {
    a.len() == b.len() && forall|k: int| 0 <= k < a.len() ==> lower(#[trigger] a[k]) == lower(b[k])
}

/// " at line N: LINE"
pub open spec fn at_line(line_no: usize, line: Seq<u8>) -> Seq<char> {
    " at line "@ + decimal(line_no as nat) + ": "@ + line_text(line)
}

/// " (line N): LINE"
pub open spec fn paren_line(line_no: usize, line: Seq<u8>) -> Seq<char> {
    " (line "@ + decimal(line_no as nat) + "): "@ + line_text(line)
}

/// What the banner line `line` (the first non-empty line) gives: `Ok(None)`
/// for a line without tokens, the field type for a valid
/// `%%MatrixMarket matrix coordinate {integer|real} general` banner (keywords
/// other than the first in any case), and otherwise the error, checking in
/// order the token count, the first token, the object and format, the
/// symmetry and the field.
pub open spec fn banner_result(line: Seq<u8>, line_no: usize, r: Result<Option<MmField>, MatrixMarketError>) -> bool {
    let t = tokens(line);
    if t.len() == 0 {
        r == Ok::<Option<MmField>, MatrixMarketError>(None)
    } else if t.len() < 5 {
        r matches Err(MatrixMarketError::InvalidBanner(m)) && m@ == "expected 5 tokens, got "@ + decimal(
            t.len(),
        ) + at_line(line_no, line)
    } else if t.len() > 5 {
        r matches Err(MatrixMarketError::InvalidBanner(m)) && m@ == "expected 5 tokens, got more"@ + at_line(
            line_no,
            line,
        )
    } else if t[0] != "%%MatrixMarket".spec_bytes() {
        r matches Err(MatrixMarketError::InvalidBanner(m)) && m@ == "missing %%MatrixMarket"@ + at_line(
            line_no,
            line,
        )
    } else if !eq_ic(t[1], "matrix".spec_bytes()) || !eq_ic(t[2], "coordinate".spec_bytes()) {
        r matches Err(MatrixMarketError::UnsupportedType(m)) && m@ == "only 'matrix coordinate' is supported, got '"@
            + line_text(t[1]) + "' '"@ + line_text(t[2]) + "'"@ + paren_line(line_no, line)
    } else if !eq_ic(t[4], "general".spec_bytes()) {
        r matches Err(MatrixMarketError::UnsupportedType(m)) && m@ == "only 'general' symmetry is supported, got '"@
            + line_text(t[4]) + "'"@ + paren_line(line_no, line)
    } else if eq_ic(t[3], "integer".spec_bytes()) {
        r == Ok::<Option<MmField>, MatrixMarketError>(Some(MmField::Integer))
    } else if eq_ic(t[3], "real".spec_bytes()) {
        r == Ok::<Option<MmField>, MatrixMarketError>(Some(MmField::Real))
    } else {
        r matches Err(MatrixMarketError::UnsupportedType(m)) && m@
            == "only 'integer' and 'real' fields are supported, got '"@ + line_text(t[3]) + "'"@ + paren_line(
            line_no,
            line,
        )
    }
}

/// Appends `" at line N: LINE"`.
fn push_at_line(m: &mut String, line_no: usize, line: &[u8])
    ensures
        final(m)@ == old(m)@ + at_line(line_no, line@),
{
    m.append(" at line ");
    push_decimal(m, line_no);
    m.append(": ");
    let t = line_lossy_trimmed(line);
    m.append(t.as_str());
    proof {
        assert(m@ =~= old(m)@ + at_line(line_no, line@));
    }
}

/// Appends `" (line N): LINE"`.
fn push_paren_line(m: &mut String, line_no: usize, line: &[u8])
    ensures
        final(m)@ == old(m)@ + paren_line(line_no, line@),
{
    m.append(" (line ");
    push_decimal(m, line_no);
    m.append("): ");
    let t = line_lossy_trimmed(line);
    m.append(t.as_str());
    proof {
        assert(m@ =~= old(m)@ + paren_line(line_no, line@));
    }
}

/// The "expected 5 tokens, got K" banner error.
fn banner_count_error(got: usize, line_no: usize, line: &[u8]) -> (e: MatrixMarketError)
    ensures
        e matches MatrixMarketError::InvalidBanner(m) && m@ == "expected 5 tokens, got "@ + decimal(got as nat)
            + at_line(line_no, line@),
{
    let mut m = String::from_str("expected 5 tokens, got ");
    push_decimal(&mut m, got);
    push_at_line(&mut m, line_no, line);
    MatrixMarketError::InvalidBanner(m)
}

/// Checks the banner line of a MatrixMarket file (the first non-empty line).
pub fn parse_banner_line(line: &[u8], line_no: usize) -> (r: Result<Option<MmField>, MatrixMarketError>)
    ensures
        banner_result(line@, line_no, r),
{
    let ghost b = line@;
    let mut it = TokenIter::new(line);
    proof {
        lemma_tokens_step(b, 0);
    }
    let mm = match it.next() {
        None => return Ok(None),
        Some(mm) => mm,
    };
    proof {
        lemma_tokens_step(b, it.spec_pos());
    }
    let object = match it.next() {
        None => return Err(banner_count_error(1, line_no, line)),
        Some(t) => t,
    };
    proof {
        lemma_tokens_step(b, it.spec_pos());
    }
    let format = match it.next() {
        None => return Err(banner_count_error(2, line_no, line)),
        Some(t) => t,
    };
    proof {
        lemma_tokens_step(b, it.spec_pos());
    }
    let field_s = match it.next() {
        None => return Err(banner_count_error(3, line_no, line)),
        Some(t) => t,
    };
    proof {
        lemma_tokens_step(b, it.spec_pos());
    }
    let symmetry = match it.next() {
        None => return Err(banner_count_error(4, line_no, line)),
        Some(t) => t,
    };
    proof {
        lemma_tokens_step(b, it.spec_pos());
    }
    let ghost t = tokens(b);
    proof {
        assert(t.len() >= 5);
        assert(t[0] == mm@);
        assert(t[1] == object@);
        assert(t[2] == format@);
        assert(t[3] == field_s@);
        assert(t[4] == symmetry@);
    }
    if it.next().is_some() {
        let mut m = String::from_str("expected 5 tokens, got more");
        push_at_line(&mut m, line_no, line);
        return Err(MatrixMarketError::InvalidBanner(m));
    }
    if !bytes_eq(mm, "%%MatrixMarket".as_bytes()) {
        let mut m = String::from_str("missing %%MatrixMarket");
        push_at_line(&mut m, line_no, line);
        return Err(MatrixMarketError::InvalidBanner(m));
    }
    if !ascii_eq_ignore_case(object, "matrix".as_bytes()) || !ascii_eq_ignore_case(
        format,
        "coordinate".as_bytes(),
    ) {
        let mut m = String::from_str("only 'matrix coordinate' is supported, got '");
        let o = line_lossy_trimmed(object);
        m.append(o.as_str());
        m.append("' '");
        let f = line_lossy_trimmed(format);
        m.append(f.as_str());
        m.append("'");
        push_paren_line(&mut m, line_no, line);
        return Err(MatrixMarketError::UnsupportedType(m));
    }
    if !ascii_eq_ignore_case(symmetry, "general".as_bytes()) {
        let mut m = String::from_str("only 'general' symmetry is supported, got '");
        let sy = line_lossy_trimmed(symmetry);
        m.append(sy.as_str());
        m.append("'");
        push_paren_line(&mut m, line_no, line);
        return Err(MatrixMarketError::UnsupportedType(m));
    }
    if ascii_eq_ignore_case(field_s, "integer".as_bytes()) {
        Ok(Some(MmField::Integer))
    } else if ascii_eq_ignore_case(field_s, "real".as_bytes()) {
        Ok(Some(MmField::Real))
    } else {
        let mut m = String::from_str("only 'integer' and 'real' fields are supported, got '");
        let fs = line_lossy_trimmed(field_s);
        m.append(fs.as_str());
        m.append("'");
        push_paren_line(&mut m, line_no, line);
        Err(MatrixMarketError::UnsupportedType(m))
    }
}

/// Whether two byte strings are equal.
pub fn bytes_eq(a: &[u8], b: &[u8]) -> (r: bool)
    ensures
        r == (a@ == b@),
{
    if a.len() != b.len() {
        return false;
    }
    let mut k: usize = 0;
    while k < a.len()
        invariant
            k <= a@.len() == b@.len(),
            forall|j: int| 0 <= j < k ==> #[trigger] a@[j] == b@[j],
        decreases a@.len() - k,
    {
        if a[k] != b[k] {
            return false;
        }
        k = k + 1;
    }
    proof {
        assert(a@ =~= b@);
    }
    true
}

/// The first position at or after `i` that is not a digit (or the end).
pub open spec fn digit_end_from(b: Seq<u8>, i: int) -> int
    decreases b.len() - i,
{
    if 0 <= i < b.len() && is_digit(b[i]) {
        digit_end_from(b, i + 1)
    } else {
        i
    }
}

/// The unsigned number at `i` and where it ends, when digits start there and
/// their value fits in `max`.
pub open spec fn number_at(b: Seq<u8>, i: int, max: int) -> Option<(int, int)> {
    if 0 <= i < b.len() && is_digit(b[i]) {
        let e = digit_end_from(b, i);
        let v = digits_value(b.subrange(i, e));
        if v <= max {
            Some((v, e))
        } else {
            None
        }
    } else {
        None
    }
}

/// The signed number at `i` (optional `+`/`-`, then digits whose value fits
/// in `i64`) and where it ends.
pub open spec fn signed_at(b: Seq<u8>, i: int) -> Option<(int, int)> {
    let p = after_sign(b, i);
    match number_at(b, p, i64::MAX as int) {
        Some((v, e)) => Some((if 0 <= i < b.len() && b[i] == 45 { -v } else { v }, e)),
        None => None,
    }
}

proof fn lemma_digit_end_from(b: Seq<u8>, i: int, e: int)
    requires
        0 <= i <= e <= b.len(),
        forall|k: int| i <= k < e ==> is_digit(#[trigger] b[k]),
        e < b.len() ==> !is_digit(b[e]),
    ensures
        digit_end_from(b, i) == e,
    decreases e - i,
{
    if i < e {
        lemma_digit_end_from(b, i + 1, e);
    }
}

proof fn lemma_digit_end_bounds(b: Seq<u8>, i: int)
    requires
        0 <= i <= b.len(),
    ensures
        i <= digit_end_from(b, i) <= b.len(),
        forall|k: int| i <= k < digit_end_from(b, i) ==> is_digit(#[trigger] b[k]),
    decreases b.len() - i,
{
    if i < b.len() && is_digit(b[i]) {
        lemma_digit_end_bounds(b, i + 1);
    }
}

/// What `parse_usize_at`-style scanning finds at `i`, stated with `number_at`.
proof fn lemma_number_at(b: Seq<u8>, i: int, max: int, ok: bool, end: int)
    requires
        0 <= i,
        ok ==> digit_run(b, i, end) && digits_value(b.subrange(i, end)) <= max,
        !ok ==> (i >= b.len() || !is_digit(b[i])) || overflows_at(b, i, end, max),
    ensures
        ok ==> number_at(b, i, max) == Some((digits_value(b.subrange(i, end)), end)),
        !ok ==> number_at(b, i, max) is None,
{
    if ok {
        lemma_digit_end_from(b, i, end);
    } else if i < b.len() && is_digit(b[i]) && overflows_at(b, i, end, max) {
        lemma_digit_end_bounds(b, i);
        let e = digit_end_from(b, i);
        let k = end;
        // the digits up to k are part of the run
        assert(e > k) by {
            if e <= k {
                lemma_digit_end_bounds(b, i);
                assert(is_digit(b[e]));
                lemma_digit_end_stops(b, i);
            }
        }
        let run = b.subrange(i, e);
        assert(all_digits(run)) by {
            assert forall|j: int| 0 <= j < run.len() implies is_digit(#[trigger] run[j]) by {
                assert(is_digit(b[i + j]));
            }
        }
        lemma_digits_value_monotone(run, k + 1 - i);
        assert(run.subrange(0, k + 1 - i) =~= b.subrange(i, k + 1));
    }
}

proof fn lemma_digit_end_stops(b: Seq<u8>, i: int)
    requires
        0 <= i <= b.len(),
    ensures
        digit_end_from(b, i) < b.len() ==> !is_digit(b[digit_end_from(b, i)]),
    decreases b.len() - i,
{
    if i < b.len() && is_digit(b[i]) {
        lemma_digit_end_stops(b, i + 1);
    }
}

/// An entry line's value.
#[derive(Debug, Clone, Copy, PartialEq, Eq, Structural)]
pub enum MtxValue {
    /// The value of an integer field.
    Integer(i64),
    /// The bytes `line[start..end]` of a real value (the caller reads it).
    Real { start: usize, end: usize },
}

/// A coordinate entry: 0-based row and column, and its value.
#[derive(Debug, Clone, Copy, PartialEq, Eq, Structural)]
pub struct MtxEntry {
    pub row: usize,
    pub col: usize,
    pub value: MtxValue,
}

/// `r` is the `InvalidEntry` error at line `line_no` with message `msg`.
pub open spec fn entry_error<T>(r: Result<T, MatrixMarketError>, line_no: usize, msg: Seq<char>) -> bool {
    r matches Err(MatrixMarketError::InvalidEntry { line, msg: m }) && line == line_no && m@ == msg
}

/// "expected 3 tokens 'row col val', got: LINE"
pub open spec fn three_tokens_msg(b: Seq<u8>) -> Seq<char> {
    "expected 3 tokens 'row col val', got: "@ + line_text(b)
}

/// "KIND 'TOKEN'" for the token starting at `s`.
pub open spec fn bad_token_msg(kind: Seq<char>, b: Seq<u8>, s: int) -> Seq<char> {
    kind + " '"@ + line_text(b.subrange(s, token_end_from(b, s))) + "'"@
}

/// What an entry line `b` (line `line_no`, after `read` entries of the `nnz`
/// announced) gives: `Ok(None)` for a blank or `%` comment line; otherwise the
/// entry `row col value` (1-based indices in the file), or the first error
/// met when reading it left to right. For a real field, `real_ok` tells
/// whether the value token `b[start..end]` is a valid number.
pub open spec fn entry_result<F: Fn(usize, usize) -> bool>(
    b: Seq<u8>,
    line_no: usize,
    field: MmField,
    read: usize,
    nnz: usize,
    real_ok: F,
    r: Result<Option<MtxEntry>, MatrixMarketError>,
) -> bool {
    let s0 = skip_ws_from(b, 0);
    if s0 >= b.len() || b[s0] == 37 {
        r == Ok::<Option<MtxEntry>, MatrixMarketError>(None)
    } else if read >= nnz {
        entry_error(r, line_no, "found more than nnz="@ + decimal(nnz as nat) + " entries"@)
    } else {
        match number_at(b, s0, usize::MAX as int) {
            None => entry_error(r, line_no, bad_token_msg("bad row index"@, b, s0)),
            Some((row1, e1)) => {
                let s1 = skip_ws_from(b, e1);
                if s1 >= b.len() {
                    entry_error(r, line_no, three_tokens_msg(b))
                } else {
                    match number_at(b, s1, usize::MAX as int) {
                        None => entry_error(r, line_no, bad_token_msg("bad col index"@, b, s1)),
                        Some((col1, e2)) => {
                            let s2 = skip_ws_from(b, e2);
                            if s2 >= b.len() {
                                entry_error(r, line_no, three_tokens_msg(b))
                            } else if row1 == 0 || col1 == 0 {
                                entry_error(r, line_no, "MatrixMarket indices are 1-based; found 0"@)
                            } else {
                                match field {
                                    MmField::Integer => match signed_at(b, s2) {
                                        None => entry_error(r, line_no, bad_token_msg("bad integer value"@, b, s2)),
                                        Some((v, e3)) => if skip_ws_from(b, e3) < b.len() {
                                            entry_error(r, line_no, three_tokens_msg(b))
                                        } else {
                                            r == Ok::<Option<MtxEntry>, MatrixMarketError>(
                                                Some(
                                                    MtxEntry {
                                                        row: (row1 - 1) as usize,
                                                        col: (col1 - 1) as usize,
                                                        value: MtxValue::Integer(v as i64),
                                                    },
                                                ),
                                            )
                                        },
                                    },
                                    MmField::Real => {
                                        let e3 = token_end_from(b, s2);
                                        ||| call_ensures(real_ok, (s2 as usize, e3 as usize), false)
                                            && entry_error(r, line_no, bad_token_msg("bad real value"@, b, s2))
                                        ||| call_ensures(real_ok, (s2 as usize, e3 as usize), true) && if skip_ws_from(
                                            b,
                                            e3,
                                        ) < b.len() {
                                            entry_error(r, line_no, three_tokens_msg(b))
                                        } else {
                                            r == Ok::<Option<MtxEntry>, MatrixMarketError>(
                                                Some(
                                                    MtxEntry {
                                                        row: (row1 - 1) as usize,
                                                        col: (col1 - 1) as usize,
                                                        value: MtxValue::Real { start: s2 as usize, end: e3 as usize },
                                                    },
                                                ),
                                            )
                                        }
                                    },
                                }
                            }
                        },
                    }
                }
            },
        }
    }
}

/// The `InvalidEntry` error with message `KIND 'TOKEN'` for the token at `s`.
fn bad_token_error(line_no: usize, kind: &str, b: &[u8], s: usize) -> (e: MatrixMarketError)
    requires
        s <= b@.len(),
    ensures
        entry_error(Err::<(), MatrixMarketError>(e), line_no, bad_token_msg(kind@, b@, s as int)),
{
    let mut end = s;
    while end < b.len() && b[end] > 32
        invariant
            s <= end <= b@.len(),
            forall|k: int| s <= k < end ==> !is_ws(#[trigger] b@[k]),
        decreases b@.len() - end,
    {
        end = end + 1;
    }
    proof {
        lemma_token_end_unique(b@, s as int, end as int);
    }
    let mut m = String::from_str(kind);
    m.append(" '");
    let t = line_lossy_trimmed(&b[s..end]);
    m.append(t.as_str());
    m.append("'");
    proof {
        assert(m@ =~= bad_token_msg(kind@, b@, s as int));
    }
    MatrixMarketError::InvalidEntry { line: line_no, msg: m }
}

/// The "expected 3 tokens" entry error.
fn three_tokens_error(line_no: usize, b: &[u8]) -> (e: MatrixMarketError)
    ensures
        entry_error(Err::<(), MatrixMarketError>(e), line_no, three_tokens_msg(b@)),
{
    let mut m = String::from_str("expected 3 tokens 'row col val', got: ");
    let t = line_lossy_trimmed(b);
    m.append(t.as_str());
    MatrixMarketError::InvalidEntry { line: line_no, msg: m }
}

/// Reads one line of the entries section: `row col value`.
pub fn parse_entry_line<F: Fn(usize, usize) -> bool>(
    b: &[u8],
    line_no: usize,
    field: MmField,
    read: usize,
    nnz: usize,
    real_ok: F,
) -> (r: Result<Option<MtxEntry>, MatrixMarketError>)
    requires
        forall|s: usize, e: usize| call_requires(real_ok, (s, e)),
    ensures
        entry_result(b@, line_no, field, read, nnz, real_ok, r),
{
    let ghost bs = b@;
    let mut idx: usize = 0;
    proof {
        lemma_skip_ws_from(bs, 0);
    }
    skip_ws_ascii(b, &mut idx);
    proof {
        lemma_skip_ws_unique(bs, 0, idx as int);
    }
    if idx >= b.len() {
        return Ok(None);
    }
    if b[idx] == 37 {
        return Ok(None);
    }
    if read >= nnz {
        let mut m = String::from_str("found more than nnz=");
        push_decimal(&mut m, nnz);
        m.append(" entries");
        return Err(MatrixMarketError::InvalidEntry { line: line_no, msg: m });
    }
    // row
    let row_tok_start = idx;
    let row_1 = match parse_usize_at(b, &mut idx) {
        Some(v) => {
            proof {
                lemma_number_at(bs, row_tok_start as int, usize::MAX as int, true, idx as int);
            }
            v
        },
        None => {
            proof {
                lemma_number_at(bs, row_tok_start as int, usize::MAX as int, false, idx as int);
            }
            return Err(bad_token_error(line_no, "bad row index", b, row_tok_start));
        },
    };
    // col
    let e1 = idx;
    skip_ws_ascii(b, &mut idx);
    proof {
        lemma_skip_ws_unique(bs, e1 as int, idx as int);
    }
    if idx >= b.len() {
        return Err(three_tokens_error(line_no, b));
    }
    let col_tok_start = idx;
    let col_1 = match parse_usize_at(b, &mut idx) {
        Some(v) => {
            proof {
                lemma_number_at(bs, col_tok_start as int, usize::MAX as int, true, idx as int);
            }
            v
        },
        None => {
            proof {
                lemma_number_at(bs, col_tok_start as int, usize::MAX as int, false, idx as int);
            }
            return Err(bad_token_error(line_no, "bad col index", b, col_tok_start));
        },
    };
    // val
    let e2 = idx;
    skip_ws_ascii(b, &mut idx);
    proof {
        lemma_skip_ws_unique(bs, e2 as int, idx as int);
    }
    if idx >= b.len() {
        return Err(three_tokens_error(line_no, b));
    }
    let val_tok_start = idx;
    if row_1 == 0 || col_1 == 0 {
        return Err(
            MatrixMarketError::InvalidEntry {
                line: line_no,
                msg: String::from_str("MatrixMarket indices are 1-based; found 0"),
            },
        );
    }
    let row = row_1 - 1;
    let col = col_1 - 1;
    let value = match field {
        MmField::Integer => {
            match parse_i64_at(b, &mut idx) {
                Some(v) => {
                    proof {
                        let p = after_sign(bs, val_tok_start as int);
                        lemma_number_at(bs, p, i64::MAX as int, true, idx as int);
                    }
                    MtxValue::Integer(v)
                },
                None => {
                    proof {
                        let p = after_sign(bs, val_tok_start as int);
                        lemma_number_at(bs, p, i64::MAX as int, false, idx as int);
                    }
                    return Err(bad_token_error(line_no, "bad integer value", b, val_tok_start));
                },
            }
        },
        MmField::Real => {
            while idx < b.len() && b[idx] > 32
                invariant
                    val_tok_start <= idx <= b@.len(),
                    forall|k: int| val_tok_start <= k < idx ==> !is_ws(#[trigger] b@[k]),
                decreases b@.len() - idx,
            {
                idx = idx + 1;
            }
            proof {
                lemma_token_end_unique(bs, val_tok_start as int, idx as int);
            }
            if !real_ok(val_tok_start, idx) {
                return Err(bad_token_error(line_no, "bad real value", b, val_tok_start));
            }
            MtxValue::Real { start: val_tok_start, end: idx }
        },
    };
    // extra trailing tokens are an error
    let e3 = idx;
    skip_ws_ascii(b, &mut idx);
    proof {
        lemma_skip_ws_unique(bs, e3 as int, idx as int);
    }
    if idx < b.len() {
        return Err(three_tokens_error(line_no, b));
    }
    Ok(Some(MtxEntry { row, col, value }))
}

/// The value of a whole token read as an unsigned number, when it is one that fits.
pub open spec fn usize_token(t: Seq<u8>) -> Option<int> {
    if t.len() > 0 && all_digits(t) && digits_value(t) <= usize::MAX {
        Some(digits_value(t))
    } else {
        None
    }
}

/// `r` is the `InvalidSizeLine` error with message `msg`.
pub open spec fn size_error<T>(r: Result<T, MatrixMarketError>, msg: Seq<char>) -> bool {
    r matches Err(MatrixMarketError::InvalidSizeLine(m)) && m@ == msg
}

/// What a line of the size section gives: `Ok(None)` for a blank or `%`
/// comment line; otherwise exactly three unsigned numbers `nrows ncols nnz`,
/// or the first error.
pub open spec fn size_result(b: Seq<u8>, line_no: usize, r: Result<Option<(usize, usize, usize)>, MatrixMarketError>) -> bool {
    let t = tokens(b);
    if t.len() == 0 || t[0][0] == 37 {
        r == Ok::<Option<(usize, usize, usize)>, MatrixMarketError>(None)
    } else if t.len() != 3 {
        size_error(r, "expected 3 integers"@ + at_line(line_no, b))
    } else if usize_token(t[0]) is None {
        size_error(r, "bad nrows"@ + " '"@ + line_text(t[0]) + "'"@ + at_line(line_no, b))
    } else if usize_token(t[1]) is None {
        size_error(r, "bad ncols"@ + " '"@ + line_text(t[1]) + "'"@ + at_line(line_no, b))
    } else if usize_token(t[2]) is None {
        size_error(r, "bad nnz"@ + " '"@ + line_text(t[2]) + "'"@ + at_line(line_no, b))
    } else {
        r == Ok::<Option<(usize, usize, usize)>, MatrixMarketError>(
            Some(
                (
                    usize_token(t[0])->0 as usize,
                    usize_token(t[1])->0 as usize,
                    usize_token(t[2])->0 as usize,
                ),
            ),
        )
    }
}

/// The "expected 3 integers" size-line error.
fn size_count_error(line_no: usize, b: &[u8]) -> (e: MatrixMarketError)
    ensures
        size_error(Err::<(), MatrixMarketError>(e), "expected 3 integers"@ + at_line(line_no, b@)),
{
    let mut m = String::from_str("expected 3 integers");
    push_at_line(&mut m, line_no, b);
    MatrixMarketError::InvalidSizeLine(m)
}

/// The "bad WHAT 'TOKEN'" size-line error.
fn size_token_error(what: &str, tok: &[u8], line_no: usize, b: &[u8]) -> (e: MatrixMarketError)
    ensures
        size_error(Err::<(), MatrixMarketError>(e), what@ + " '"@ + line_text(tok@) + "'"@ + at_line(line_no, b@)),
{
    let mut m = String::from_str(what);
    m.append(" '");
    let t = line_lossy_trimmed(tok);
    m.append(t.as_str());
    m.append("'");
    push_at_line(&mut m, line_no, b);
    proof {
        assert(m@ =~= what@ + " '"@ + line_text(tok@) + "'"@ + at_line(line_no, b@));
    }
    MatrixMarketError::InvalidSizeLine(m)
}

/// Reads a line of the size section: `nrows ncols nnz`.
pub fn parse_size_line(b: &[u8], line_no: usize) -> (r: Result<Option<(usize, usize, usize)>, MatrixMarketError>)
    ensures
        size_result(b@, line_no, r),
{
    let ghost bs = b@;
    let mut it = TokenIter::new(b);
    proof {
        lemma_tokens_step(bs, 0);
    }
    let first = match it.next() {
        None => return Ok(None),
        Some(t) => t,
    };
    proof {
        assert(first@.len() > 0);
    }
    if first[0] == 37 {
        return Ok(None);
    }
    proof {
        lemma_tokens_step(bs, it.spec_pos());
    }
    let nrows_s = first;
    let ncols_s = match it.next() {
        None => return Err(size_count_error(line_no, b)),
        Some(t) => t,
    };
    proof {
        lemma_tokens_step(bs, it.spec_pos());
    }
    let nnz_s = match it.next() {
        None => return Err(size_count_error(line_no, b)),
        Some(t) => t,
    };
    proof {
        lemma_tokens_step(bs, it.spec_pos());
    }
    if it.next().is_some() {
        return Err(size_count_error(line_no, b));
    }
    let ghost t = tokens(bs);
    proof {
        assert(t.len() == 3);
        assert(t[0] == nrows_s@);
        assert(t[1] == ncols_s@);
        assert(t[2] == nnz_s@);
    }
    let nrows = match parse_usize_ascii(nrows_s) {
        Some(v) => v,
        None => return Err(size_token_error("bad nrows", nrows_s, line_no, b)),
    };
    let ncols = match parse_usize_ascii(ncols_s) {
        Some(v) => v,
        None => return Err(size_token_error("bad ncols", ncols_s, line_no, b)),
    };
    let nnz = match parse_usize_ascii(nnz_s) {
        Some(v) => v,
        None => return Err(size_token_error("bad nnz", nnz_s, line_no, b)),
    };
    Ok(Some((nrows, ncols, nnz)))
}

/// The section of a MatrixMarket file being read.
#[derive(Debug, Clone, Copy, PartialEq, Eq, Structural)]
pub enum MtxSection {
    Banner,
    Size,
    Entries,
}

/// What a line of a MatrixMarket file turned out to be.
#[derive(Debug, Clone, Copy, PartialEq, Eq, Structural)]
pub enum MtxLine {
    /// A blank or comment line.
    Skip,
    /// The banner, with the value type.
    Banner(MmField),
    /// The size line.
    Size { nrows: usize, ncols: usize, nnz: usize },
    /// A coordinate entry.
    Entry(MtxEntry),
}

/// Reads a MatrixMarket coordinate file line by line: the banner (the first
/// non-empty line), then the size line, then the entries, skipping blank
/// lines and (after the banner) `%` comments.
#[derive(Debug, Clone, Copy)]
pub struct MtxReader {
    pub section: MtxSection,
    pub line_no: usize,
    pub field: MmField,
    pub nrows: usize,
    pub ncols: usize,
    pub nnz: usize,
    pub read: usize,
}

/// The line as the banner check sees it: on the first line, a UTF-8 byte order
/// mark is dropped.
pub open spec fn banner_bytes(b: Seq<u8>, line_no: usize) -> Seq<u8> {
    if line_no == 1 && b.len() >= 3 && b[0] == 0xEF && b[1] == 0xBB && b[2] == 0xBF {
        b.subrange(3, b.len() as int)
    } else {
        b
    }
}

/// Reading line `n` (bytes `line`) in the banner section gives `r` and leaves the reader in `s`.
pub open spec fn banner_step(line: Seq<u8>, n: usize, r: Result<MtxLine, MatrixMarketError>, s: MtxReader) -> bool {
    exists|br: Result<Option<MmField>, MatrixMarketError>| {
        &&& #[trigger] banner_result(banner_bytes(line, n), n, br)
        &&& match br {
            Ok(None) => r == Ok::<MtxLine, MatrixMarketError>(MtxLine::Skip) && s.section == MtxSection::Banner,
            Ok(Some(f)) => r == Ok::<MtxLine, MatrixMarketError>(MtxLine::Banner(f)) && s.section == MtxSection::Size
                && s.field == f,
            Err(e) => r == Err::<MtxLine, MatrixMarketError>(e),
        }
    }
}

/// Reading line `n` in the size section gives `r` and takes the reader from `s0` to `s`.
pub open spec fn size_step(line: Seq<u8>, n: usize, r: Result<MtxLine, MatrixMarketError>, s0: MtxReader, s: MtxReader) -> bool {
    exists|sr: Result<Option<(usize, usize, usize)>, MatrixMarketError>| {
        &&& #[trigger] size_result(line, n, sr)
        &&& match sr {
            Ok(None) => r == Ok::<MtxLine, MatrixMarketError>(MtxLine::Skip) && s.section == MtxSection::Size,
            Ok(Some((a, c, z))) => r == Ok::<MtxLine, MatrixMarketError>(MtxLine::Size { nrows: a, ncols: c, nnz: z })
                && s.section == MtxSection::Entries && s.nrows == a && s.ncols == c && s.nnz == z && s.read == 0
                && s.field == s0.field,
            Err(e) => r == Err::<MtxLine, MatrixMarketError>(e),
        }
    }
}

/// Reading line `n` in the entries section gives `r` and takes the reader from `s0` to `s`.
pub open spec fn entry_step<F: Fn(usize, usize) -> bool>(
    line: Seq<u8>,
    n: usize,
    real_ok: F,
    r: Result<MtxLine, MatrixMarketError>,
    s0: MtxReader,
    s: MtxReader,
) -> bool {
    exists|er: Result<Option<MtxEntry>, MatrixMarketError>| {
        &&& #[trigger] entry_result(line, n, s0.field, s0.read, s0.nnz, real_ok, er)
        &&& match er {
            Ok(None) => r == Ok::<MtxLine, MatrixMarketError>(MtxLine::Skip) && s.read == s0.read,
            Ok(Some(e)) => r == Ok::<MtxLine, MatrixMarketError>(MtxLine::Entry(e)) && s.read == s0.read + 1,
            Err(e) => r == Err::<MtxLine, MatrixMarketError>(e),
        }
        &&& er is Ok ==> s.section == MtxSection::Entries && s.nnz == s0.nnz && s.field == s0.field
    }
}

impl MtxReader {
    /// A reader before the first line.
    pub fn new() -> (r: Self)
        ensures
            r.section == MtxSection::Banner,
            r.line_no == 0,
            r.field == MmField::Real,
            r.nrows == 0,
            r.ncols == 0,
            r.nnz == 0,
            r.read == 0,
    {
        MtxReader {
            section: MtxSection::Banner,
            line_no: 0,
            field: MmField::Real,
            nrows: 0,
            ncols: 0,
            nnz: 0,
            read: 0,
        }
    }

    /// Reads the next line. For a real field, `real_ok(start, end)` tells
    /// whether `line[start..end]` is a valid number.
    pub fn feed_line<F: Fn(usize, usize) -> bool>(&mut self, line: &[u8], real_ok: F) -> (r: Result<MtxLine, MatrixMarketError>)
        requires
            old(self).line_no < usize::MAX,
            forall|s: usize, e: usize| call_requires(real_ok, (s, e)),
        ensures
            final(self).line_no == old(self).line_no + 1,
            old(self).section == MtxSection::Banner ==> banner_step(line@, final(self).line_no, r, *final(self)),
            old(self).section == MtxSection::Size ==> size_step(line@, final(self).line_no, r, *old(self), *final(self)),
            old(self).section == MtxSection::Entries ==> entry_step(line@, final(self).line_no, real_ok, r, *old(self), *final(self)),
    {
        self.line_no = self.line_no + 1;
        match self.section {
            MtxSection::Banner => {
                // tolerate a UTF-8 byte order mark at the start of the file
                let mut b = line;
                if self.line_no == 1 && line.len() >= 3 && line[0] == 0xEF && line[1] == 0xBB && line[2] == 0xBF {
                    b = &line[3..line.len()];
                }
                proof {
                    assert(b@ =~= banner_bytes(line@, self.line_no));
                }
                let br = parse_banner_line(b, self.line_no);
                let ghost n = self.line_no;
                let ghost bb = banner_bytes(line@, n);
                proof {
                    assert(banner_result(bb, n, br));
                }
                let res = match br {
                    Ok(None) => Ok(MtxLine::Skip),
                    Ok(Some(f)) => {
                        self.section = MtxSection::Size;
                        self.field = f;
                        Ok(MtxLine::Banner(f))
                    },
                    Err(e) => Err(e),
                };
                proof {
                    assert(banner_step(line@, n, res, *self));
                }
                res
            },
            MtxSection::Size => {
                let sr = parse_size_line(line, self.line_no);
                match sr {
                    Ok(None) => Ok(MtxLine::Skip),
                    Ok(Some((nrows, ncols, nnz))) => {
                        self.section = MtxSection::Entries;
                        self.nrows = nrows;
                        self.ncols = ncols;
                        self.nnz = nnz;
                        self.read = 0;
                        Ok(MtxLine::Size { nrows, ncols, nnz })
                    },
                    Err(e) => Err(e),
                }
            },
            MtxSection::Entries => {
                let er = parse_entry_line(line, self.line_no, self.field, self.read, self.nnz, real_ok);
                match er {
                    Ok(None) => Ok(MtxLine::Skip),
                    Ok(Some(e)) => {
                        self.read = self.read + 1;
                        Ok(MtxLine::Entry(e))
                    },
                    Err(e) => Err(e),
                }
            },
        }
    }

    /// Checks the end of the input: an error when the banner or the size line
    /// is missing, or when the number of entries read differs from the one
    /// announced.
    pub fn finish(&self) -> (r: Result<(), MatrixMarketError>)
        ensures
            self.section == MtxSection::Banner ==> (r matches Err(MatrixMarketError::InvalidBanner(m)) && m@ == "empty input"@),
            self.section == MtxSection::Size ==> (r matches Err(MatrixMarketError::InvalidSizeLine(m)) && m@ == "missing size line"@),
            self.section == MtxSection::Entries ==> {
                if self.read == self.nnz {
                    r is Ok
                } else {
                    r == Err::<(), MatrixMarketError>(MatrixMarketError::EntryCountMismatch { expected: self.nnz, actual: self.read })
                }
            },
    {
        match self.section {
            MtxSection::Banner => Err(MatrixMarketError::InvalidBanner(String::from_str("empty input"))),
            MtxSection::Size => Err(MatrixMarketError::InvalidSizeLine(String::from_str("missing size line"))),
            MtxSection::Entries => {
                if self.read != self.nnz {
                    Err(MatrixMarketError::EntryCountMismatch { expected: self.nnz, actual: self.read })
                } else {
                    Ok(())
                }
            },
        }
    }
}

} // verus!
