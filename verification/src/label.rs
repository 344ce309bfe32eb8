//! Parsing of a point's display name into its ordinal sort key.
//!
//! A well-formed name splits on runs of whitespace into exactly six tokens,
//! of the shape `<cloud> <roman-numeral> - <noun> <noun> <number>`: the
//! second token is a Roman numeral giving the group ordinal, and the sixth
//! is a decimal sub-index (taken as 0 when it does not parse).

use vstd::prelude::*;

verus! {

/// The ordinal sort key parsed from a point's name.
#[derive(Clone, Copy, Debug, PartialEq, Eq, Structural)]
pub struct LabelKey {
    /// Group ordinal: the value of the Roman numeral in the second token.
    pub cloud_number: u32,
    /// Sub-index: the decimal value of the sixth token, or 0.
    pub belt_number: u32,
}

/// Why a name failed to parse into a `LabelKey`.
#[derive(Clone, Copy, Debug, PartialEq, Eq, Structural)]
pub enum LabelError {
    /// The name does not split into exactly six whitespace-separated tokens.
    MalformedLabel,
    /// The second token is not a valid Roman numeral.
    InvalidOrdinal,
}

/// Unicode whitespace (the `White_Space` set, as `char::is_whitespace`
/// recognizes it), the token separator of the label convention.
pub open spec fn is_space(c: char) -> bool {
    ||| ('\u{0009}' <= c && c <= '\u{000D}')
    ||| c == ' '
    ||| c == '\u{0085}'
    ||| c == '\u{00A0}'
    ||| c == '\u{1680}'
    ||| ('\u{2000}' <= c && c <= '\u{200A}')
    ||| c == '\u{2028}'
    ||| c == '\u{2029}'
    ||| c == '\u{202F}'
    ||| c == '\u{205F}'
    ||| c == '\u{3000}'
}

/// Number of leading characters of `s` before the first whitespace.
pub open spec fn token_end(s: Seq<char>) -> int
    decreases s.len(),
{
    if s.len() == 0 {
        0
    } else if is_space(s[0]) {
        0
    } else {
        1 + token_end(s.drop_first())
    }
}

pub proof fn lemma_token_end_bounds(s: Seq<char>)
    ensures
        0 <= token_end(s) <= s.len(),
    decreases s.len(),
{
    if s.len() > 0 && !is_space(s[0]) {
        lemma_token_end_bounds(s.drop_first());
    }
}

/// `token_end(s)` is the index of the first whitespace character, or the
/// length of `s` if there is none.
pub proof fn lemma_token_end_is_first_space(s: Seq<char>, k: int)
    requires
        0 <= k <= s.len(),
        forall|m: int| 0 <= m < k ==> !is_space(s[m]),
        k < s.len() ==> is_space(s[k]),
    ensures
        token_end(s) == k,
    decreases s.len(),
{
    if s.len() == 0 {
    } else if k == 0 {
    } else {
        lemma_token_end_is_first_space(s.drop_first(), k - 1);
    }
}

/// The maximal runs of non-whitespace characters of `s`, in order.
pub open spec fn tokens(s: Seq<char>) -> Seq<Seq<char>>
    decreases s.len(),
    via tokens_decreases
{
    if s.len() == 0 {
        Seq::empty()
    } else if is_space(s[0]) {
        tokens(s.drop_first())
    } else {
        seq![s.take(token_end(s))] + tokens(s.skip(token_end(s)))
    }
}

#[via_fn]
proof fn tokens_decreases(s: Seq<char>) {
    lemma_token_end_bounds(s);
    if s.len() > 0 && !is_space(s[0]) {
        lemma_token_end_bounds(s.drop_first());
    }
}

/// A decimal digit.
pub open spec fn is_digit(c: char) -> bool {
    '0' <= c && c <= '9'
}

pub open spec fn digit_val(c: char) -> int {
    c as int - '0' as int
}

pub open spec fn all_digits(s: Seq<char>) -> bool {
    forall|i: int| 0 <= i < s.len() ==> is_digit(#[trigger] s[i])
}

/// The value of a string of decimal digits (most significant first).
pub open spec fn dec_val(s: Seq<char>) -> int
    decreases s.len(),
{
    if s.len() == 0 {
        0
    } else {
        dec_val(s.drop_last()) * 10 + digit_val(s.last())
    }
}

/// The digits of a decimal literal: one leading `+` sign is allowed.
pub open spec fn dec_digits(s: Seq<char>) -> Seq<char> {
    if s.len() > 0 && s[0] == '+' {
        s.drop_first()
    } else {
        s
    }
}

/// Whether `s` is a decimal literal whose value fits in a `u32`, after the
/// manner of `u32::from_str`.
pub open spec fn parses_to_u32(s: Seq<char>) -> bool {
    let d = dec_digits(s);
    d.len() > 0 && all_digits(d) && dec_val(d) <= u32::MAX
}

/// The sub-index a token denotes: its decimal value, or 0 when it is not a
/// decimal literal fitting a `u32`.
pub open spec fn sub_index_of(s: Seq<char>) -> u32 {
    if parses_to_u32(s) {
        dec_val(dec_digits(s)) as u32
    } else {
        0
    }
}

/// No Roman numeral needs more letters than this; a longer second token is
/// rejected outright, which also keeps septem's byte-by-byte `u32`
/// accumulator (at most 1000 per byte) far from overflowing.
pub const ROMAN_TOKEN_MAX: usize = 4000;

/// The key a name parses to, or the error it fails with: six tokens exactly,
/// else `MalformedLabel`; a Roman-numeral second token (of reasonable
/// length), else `InvalidOrdinal`; the sixth token's decimal value, or 0, as
/// the sub-index.
pub open spec fn label_of(s: Seq<char>) -> Result<LabelKey, LabelError> {
    if tokens(s).len() != 6 {
        Err(LabelError::MalformedLabel)
    } else if tokens(s)[1].len() > ROMAN_TOKEN_MAX as int {
        Err(LabelError::InvalidOrdinal)
    } else {
        match roman_value_of(tokens(s)[1]) {
            Option::None => Err(LabelError::InvalidOrdinal),
            Option::Some(g) => Ok(
                LabelKey { cloud_number: g, belt_number: sub_index_of(tokens(s)[5]) },
            ),
        }
    }
}

/// The value septem parses from a string of Roman digit letters, if any.
pub uninterp spec fn roman_value_of(s: Seq<char>) -> Option<u32>;

/// Relies on septem's `FromStr` impl for `Roman` and its `Deref` to `u32`:
/// the parse is a function of the characters alone. The length bound keeps
/// septem's `u32` accumulator, which grows by at most 1000 per byte, far
/// from overflow (its additions are unchecked).
#[verifier::external_body]
fn parse_roman(s: &str) -> (r: Option<u32>)
    requires
        s@.len() <= ROMAN_TOKEN_MAX,
    ensures
        r == roman_value_of(s@),
{
    s.parse::<septem::Roman>().ok().map(|v| *v)
}

fn is_space_char(c: char) -> (r: bool)
    ensures
        r == is_space(c),
{
    (c >= '\u{0009}' && c <= '\u{000D}') || c == ' ' || c == '\u{0085}' || c == '\u{00A0}'
        || c == '\u{1680}' || (c >= '\u{2000}' && c <= '\u{200A}') || c == '\u{2028}'
        || c == '\u{2029}' || c == '\u{202F}' || c == '\u{205F}' || c == '\u{3000}'
}

/// The views of a vector of strings.
pub open spec fn views_of(ts: Seq<String>) -> Seq<Seq<char>> {
    ts.map_values(|t: String| t@)
}

/// Split `s` into its maximal runs of non-whitespace characters.
fn tokenize(s: &str) -> (r: Vec<String>)
    ensures
        views_of(r@) == tokens(s@),
{
    let len: usize = s.unicode_len();
    let mut r: Vec<String> = Vec::new();
    let mut i: usize = 0;
    proof {
        assert(views_of(r@) =~= Seq::<Seq<char>>::empty());
        assert(s@.skip(0) =~= s@);
    }
    while i < len
        invariant
            i <= len,
            len == s@.len(),
            views_of(r@) + tokens(s@.skip(i as int)) == tokens(s@),
        decreases len - i,
    {
        let c = s.get_char(i);
        if is_space_char(c) {
            proof {
                assert(s@.skip(i as int).drop_first() =~= s@.skip(i + 1));
            }
            i = i + 1;
        } else {
            let start: usize = i;
            let mut j: usize = i + 1;
            while j < len
                invariant
                    start < j <= len,
                    len == s@.len(),
                    forall|m: int| start <= m < j ==> !is_space(s@[m]),
                ensures
                    start < j <= len,
                    forall|m: int| start <= m < j ==> !is_space(s@[m]),
                    j == len || is_space(s@[j as int]),
                decreases len - j,
            {
                let c2 = s.get_char(j);
                if is_space_char(c2) {
                    break;
                }
                j = j + 1;
            }
            let token = s.substring_char(start, j);
            r.push(token.to_owned());
            proof {
                let rest = s@.skip(start as int);
                lemma_token_end_is_first_space(rest, j - start);
                assert(rest.take(j - start) =~= s@.subrange(start as int, j as int));
                assert(rest.skip(j - start) =~= s@.skip(j as int));
                assert(tokens(rest) == seq![token@] + tokens(s@.skip(j as int)));
                assert(views_of(r@) =~= views_of(r@.drop_last()).push(token@));
                assert(views_of(r@) + tokens(s@.skip(j as int)) =~= views_of(r@.drop_last())
                    + tokens(rest));
            }
            i = j;
        }
    }
    proof {
        assert(s@.skip(len as int) =~= Seq::<char>::empty());
        assert(views_of(r@) =~= views_of(r@) + tokens(s@.skip(len as int)));
    }
    r
}

fn is_digit_char(c: char) -> (r: bool)
    ensures
        r == is_digit(c),
{
    c >= '0' && c <= '9'
}

/// `dec_val` only grows as digits are appended.
proof fn lemma_dec_val_prefix(s: Seq<char>, k: int)
    requires
        all_digits(s),
        0 <= k <= s.len(),
    ensures
        0 <= dec_val(s.take(k)) <= dec_val(s),
    decreases s.len() - k,
{
    if k == s.len() {
        assert(s.take(k) =~= s);
        lemma_dec_val_nonneg(s);
    } else {
        lemma_dec_val_prefix(s, k + 1);
        let t = s.take(k + 1);
        assert(t.drop_last() =~= s.take(k));
        assert(dec_val(t) == dec_val(s.take(k)) * 10 + digit_val(s[k]));
        lemma_dec_val_nonneg(s.take(k));
        assert(dec_val(s.take(k)) <= dec_val(s.take(k)) * 10) by (nonlinear_arith)
            requires 0 <= dec_val(s.take(k));
    }
}

proof fn lemma_dec_val_nonneg(s: Seq<char>)
    requires
        all_digits(s),
    ensures
        dec_val(s) >= 0,
    decreases s.len(),
{
    if s.len() > 0 {
        assert(all_digits(s.drop_last()));
        lemma_dec_val_nonneg(s.drop_last());
    }
}

/// Parse a token as `u32::from_str` would, substituting 0 on any failure.
fn parse_u32_or_zero(s: &str) -> (r: u32)
    ensures
        r == sub_index_of(s@),
{
    let len: usize = s.unicode_len();
    let mut i: usize = 0;
    if len > 0 && s.get_char(0) == '+' {
        i = 1;
    }
    let ghost d = dec_digits(s@);
    proof {
        assert(d =~= s@.skip(i as int));
    }
    if i == len {
        return 0;
    }
    let offset: usize = i;
    let mut acc: u64 = 0;
    while i < len
        invariant
            offset <= i <= len,
            len == s@.len(),
            d == dec_digits(s@),
            d == s@.skip(offset as int),
            d.len() == len - offset,
            forall|m: int| 0 <= m < i - offset ==> is_digit(#[trigger] d[m]),
            acc == dec_val(d.take(i - offset)),
            acc <= u32::MAX,
        decreases len - i,
    {
        let c = s.get_char(i);
        if !is_digit_char(c) {
            proof {
                assert(d[i - offset] == s@[i as int]);
                assert(!all_digits(d));
            }
            return 0;
        }
        let dv: u64 = (c as u32 as u64) - ('0' as u32 as u64);
        let next: u64 = acc * 10 + dv;
        proof {
            let t = d.take(i - offset + 1);
            assert(t.drop_last() =~= d.take(i - offset));
            assert(t.last() == d[i - offset]);
        }
        if next > u32::MAX as u64 {
            proof {
                if parses_to_u32(s@) {
                    lemma_dec_val_prefix(d, i - offset + 1);
                }
            }
            return 0;
        }
        acc = next;
        i = i + 1;
    }
    proof {
        assert(d.take(i - offset) =~= d);
        assert(parses_to_u32(s@));
    }
    acc as u32
}

/// Parse a point's display name into its `LabelKey`.
///
/// The name must split on runs of whitespace into exactly six tokens; the
/// second must be a Roman numeral (its value is the group ordinal); the
/// sixth gives the sub-index, with 0 substituted when it is not a decimal
/// number fitting a `u32`.
pub fn parse_label(name: &str) -> (r: Result<LabelKey, LabelError>)
    ensures
        r == label_of(name@),
{
    let ts = tokenize(name);
    if ts.len() != 6 {
        return Err(LabelError::MalformedLabel);
    }
    if ts[1].as_str().unicode_len() > ROMAN_TOKEN_MAX {
        return Err(LabelError::InvalidOrdinal);
    }
    let group = parse_roman(ts[1].as_str());
    match group {
        Option::None => Err(LabelError::InvalidOrdinal),
        Option::Some(g) => {
            let b = parse_u32_or_zero(ts[5].as_str());
            Ok(LabelKey { cloud_number: g, belt_number: b })
        },
    }
}

} // verus!
