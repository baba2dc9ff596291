//! The textual progress sample: a percent and an elapsed time, as the
//! perception layer reads them off the screen (`": 117% 3:03:23"`).

use vstd::prelude::*;

use crate::codec::all_digits;
use crate::codec::digits_value;
use crate::codec::spec_format_hms;
use crate::codec::spec_hms_parts;
use crate::codec::spec_number_digits;
use crate::codec::spec_parse_u64;
use crate::codec::spec_u64_digits;
use crate::SplitsError;

verus! {

/// One progress observation: a percent and an elapsed duration in whole
/// seconds.
#[derive(Debug, Clone, Copy, PartialEq, Eq, Structural, Default)]
pub struct InGameTime {
    /// Progress percent as shown on screen (not bounded by 100).
    pub percent: u32,
    /// Elapsed time in whole seconds.
    pub duration: u64,
}

// ---------------------------------------------------------------------------
// Whitespace and tokenization, as the standard library defines them.
// ---------------------------------------------------------------------------
/// The Unicode `White_Space` code points, which the standard trimming and
/// whitespace-splitting functions go by.
pub open spec fn is_space(c: char) -> bool {
    ||| 0x09 <= c as u32 <= 0x0D
    ||| c as u32 == 0x20
    ||| c as u32 == 0x85
    ||| c as u32 == 0xA0
    ||| c as u32 == 0x1680
    ||| 0x2000 <= c as u32 <= 0x200A
    ||| c as u32 == 0x2028
    ||| c as u32 == 0x2029
    ||| c as u32 == 0x202F
    ||| c as u32 == 0x205F
    ||| c as u32 == 0x3000
}

/// The first index at or after `i` holding a non-space, or the length.
pub open spec fn skip_spaces(s: Seq<char>, i: int) -> int
    decreases s.len() - i,
{
    if i < 0 || i >= s.len() {
        s.len() as int
    } else if is_space(s[i]) {
        skip_spaces(s, i + 1)
    } else {
        i
    }
}

/// The first index at or after `i` holding a space, or the length; the
/// result is forced past `i` so that tokenization visibly advances.
pub open spec fn token_end(s: Seq<char>, i: int) -> int
    decreases s.len() - i,
{
    if i < 0 || i >= s.len() {
        s.len() as int
    } else if is_space(s[i]) {
        i
    } else {
        let r = token_end(s, i + 1);
        if r < i + 1 {
            i + 1
        } else {
            r
        }
    }
}

/// `token_end` stays within the string and moves forward over a non-space.
pub proof fn lemma_token_end_bounds(s: Seq<char>, i: int)
    requires
        0 <= i <= s.len(),
    ensures
        i <= token_end(s, i) <= s.len(),
        i < s.len() && !is_space(s[i]) ==> token_end(s, i) > i,
    decreases s.len() - i,
{
    if i < s.len() && !is_space(s[i]) {
        lemma_token_end_bounds(s, i + 1);
    }
}

/// The whitespace-separated tokens of `s`, from index `i` on.
pub open spec fn split_ws(s: Seq<char>, i: int) -> Seq<Seq<char>>
    decreases s.len() - i,
    via split_ws_decreases
{
    if i < 0 || i >= s.len() {
        Seq::empty()
    } else if is_space(s[i]) {
        split_ws(s, i + 1)
    } else {
        seq![s.subrange(i, token_end(s, i))] + split_ws(s, token_end(s, i))
    }
}

#[via_fn]
proof fn split_ws_decreases(s: Seq<char>, i: int) {
    if 0 <= i < s.len() && !is_space(s[i]) {
        lemma_token_end_bounds(s, i);
    }
}

/// `skip_spaces` is what its characterization says.
pub proof fn lemma_skip_spaces_at(s: Seq<char>, i: int, r: int)
    requires
        0 <= i <= r <= s.len(),
        forall|j: int| i <= j < r ==> is_space(#[trigger] s[j]),
        r < s.len() ==> !is_space(s[r]),
    ensures
        skip_spaces(s, i) == r,
    decreases r - i,
{
    if i < r {
        lemma_skip_spaces_at(s, i + 1, r);
    }
}

/// `token_end` is what its characterization says.
pub proof fn lemma_token_end_at(s: Seq<char>, i: int, r: int)
    requires
        0 <= i <= r <= s.len(),
        forall|j: int| i <= j < r ==> !is_space(#[trigger] s[j]),
        r < s.len() ==> is_space(s[r]),
    ensures
        token_end(s, i) == r,
    decreases r - i,
{
    if i < r {
        lemma_token_end_at(s, i + 1, r);
    }
}

/// Leading spaces do not change the token list.
pub proof fn lemma_split_ws_skip(s: Seq<char>, i: int, r: int)
    requires
        0 <= i <= r <= s.len(),
        forall|j: int| i <= j < r ==> is_space(#[trigger] s[j]),
    ensures
        split_ws(s, i) == split_ws(s, r),
    decreases r - i,
{
    if i < r {
        lemma_split_ws_skip(s, i + 1, r);
    }
}

// ---------------------------------------------------------------------------
// The sample grammar.
// ---------------------------------------------------------------------------
/// `t` with every trailing `%` removed, as the standard trailing-match
/// stripper leaves it.
pub open spec fn strip_trailing_pct(t: Seq<char>) -> Seq<char>
    decreases t.len(),
{
    if t.len() > 0 && t.last() == '%' {
        strip_trailing_pct(t.drop_last())
    } else {
        t
    }
}

/// What the standard unsigned 32-bit parser accepts.
pub open spec fn spec_parse_u32(t: Seq<char>) -> Option<u32> {
    let d = spec_number_digits(t);
    if d.len() >= 1 && all_digits(d) && digits_value(d) <= u32::MAX {
        Some(digits_value(d) as u32)
    } else {
        None
    }
}

/// The duration denoted by the time token of a sample: `H:MM:SS` where the
/// minute and second components are exactly two characters long.
pub open spec fn spec_parse_igt_time(t: Seq<char>) -> Option<u64> {
    match spec_hms_parts(t) {
        Some((h_part, m_part, s_part)) => {
            if m_part.len() == 2 && s_part.len() == 2 {
                match (spec_parse_u64(h_part), spec_parse_u64(m_part), spec_parse_u64(s_part)) {
                    (Some(h), Some(m), Some(sec)) => {
                        if m < 60 && sec < 60 && h * 3600 + m * 60 + sec <= u64::MAX {
                            Some((h * 3600 + m * 60 + sec) as u64)
                        } else {
                            None
                        }
                    },
                    _ => None,
                }
            } else {
                None
            }
        },
        None => None,
    }
}

/// The sample denoted by a text line: after leading whitespace and one
/// optional `:`, exactly two whitespace-separated tokens, the first a
/// percent (trailing `%` signs ignored), the second a strict `H:MM:SS` time.
pub open spec fn spec_parse_igt(s: Seq<char>) -> Option<InGameTime> {
    let a = skip_spaces(s, 0);
    let b = if a < s.len() && s[a] == ':' {
        a + 1
    } else {
        a
    };
    let toks = split_ws(s, b);
    if toks.len() == 2 {
        match (spec_parse_u32(strip_trailing_pct(toks[0])), spec_parse_igt_time(toks[1])) {
            (Some(p), Some(d)) => Some(InGameTime { percent: p, duration: d }),
            _ => None,
        }
    } else {
        None
    }
}

/// Stripping trailing `%` signs down to a known boundary.
proof fn lemma_strip_trailing_pct_at(t: Seq<char>, k: int)
    requires
        0 <= k <= t.len(),
        forall|j: int| k <= j < t.len() ==> t[j] == '%',
        k > 0 ==> t[k - 1] != '%',
    ensures
        strip_trailing_pct(t) == t.take(k),
    decreases t.len(),
{
    if t.len() > 0 && t.last() == '%' {
        assert(k < t.len());
        lemma_strip_trailing_pct_at(t.drop_last(), k);
        assert(t.drop_last().take(k) =~= t.take(k));
    } else {
        assert(k == t.len());
        assert(t.take(k) =~= t);
    }
}

/// Whether `c` is a Unicode `White_Space` code point, matching what the
/// standard trimming and splitting functions treat as whitespace.
fn is_space_char(c: char) -> (r: bool)
    ensures
        r == is_space(c),
{
    let v = c as u32;
    (0x09 <= v && v <= 0x0D) || v == 0x20 || v == 0x85 || v == 0xA0 || v == 0x1680 || (0x2000 <= v
        && v <= 0x200A) || v == 0x2028 || v == 0x2029 || v == 0x202F || v == 0x205F || v == 0x3000
}

/// The first non-space position at or after `from`.
fn skip_spaces_exec(s: &str, from: usize) -> (r: usize)
    requires
        from <= s@.len(),
    ensures
        from <= r <= s@.len(),
        r == skip_spaces(s@, from as int),
        forall|j: int| from <= j < r ==> is_space(#[trigger] s@[j]),
        r < s@.len() ==> !is_space(s@[r as int]),
{
    let len = s.unicode_len();
    let mut i = from;
    while i < len
        invariant
            from <= i <= len,
            len == s@.len(),
            forall|j: int| from <= j < i ==> is_space(#[trigger] s@[j]),
        decreases len - i,
    {
        if !is_space_char(s.get_char(i)) {
            proof {
                lemma_skip_spaces_at(s@, from as int, i as int);
            }
            return i;
        }
        i = i + 1;
    }
    proof {
        lemma_skip_spaces_at(s@, from as int, len as int);
    }
    len
}

/// The first space position at or after `from`.
fn token_end_exec(s: &str, from: usize) -> (r: usize)
    requires
        from <= s@.len(),
    ensures
        from <= r <= s@.len(),
        r == token_end(s@, from as int),
        forall|j: int| from <= j < r ==> !is_space(#[trigger] s@[j]),
        r < s@.len() ==> is_space(s@[r as int]),
{
    let len = s.unicode_len();
    let mut i = from;
    while i < len
        invariant
            from <= i <= len,
            len == s@.len(),
            forall|j: int| from <= j < i ==> !is_space(#[trigger] s@[j]),
        decreases len - i,
    {
        if is_space_char(s.get_char(i)) {
            proof {
                lemma_token_end_at(s@, from as int, i as int);
            }
            return i;
        }
        i = i + 1;
    }
    proof {
        lemma_token_end_at(s@, from as int, len as int);
    }
    len
}

/// Parses an unsigned decimal token as the standard 32-bit parser does.
fn parse_u32_token(s: &str) -> (r: Option<u32>)
    ensures
        r == spec_parse_u32(s@),
{
    let ghost d = spec_number_digits(s@);
    match crate::codec::parse_u64_token(s) {
        Some(v) => {
            proof {
                if all_digits(d) {
                    crate::codec::lemma_digits_value_nonneg(d);
                }
                assert(digits_value(d) == v);
            }
            if v <= u32::MAX as u64 {
                Some(v as u32)
            } else {
                proof {
                    crate::codec::lemma_digits_value_nonneg(d);
                    assert(digits_value(d) == v);
                    assert(digits_value(d) > u32::MAX);
                }
                None
            }
        },
        None => {
            proof {
                if d.len() >= 1 && all_digits(d) && digits_value(d) <= u32::MAX {
                    assert(digits_value(d) <= u64::MAX);
                    assert(spec_parse_u64(s@) is Some);
                }
            }
            None
        },
    }
}

/// Parses the time token of a sample: `H:MM:SS` with two-character minute
/// and second components, both below sixty.
fn parse_igt_time(s: &str) -> (r: Option<u64>)
    ensures
        r == spec_parse_igt_time(s@),
{
    let len = s.unicode_len();
    let (p1, p2) = match crate::codec::hms_bounds(s) {
        Some(b) => b,
        None => {
            return None;
        },
    };
    if p2 - p1 - 1 != 2 || len - p2 - 1 != 2 {
        return None;
    }
    let h_str = s.substring_char(0, p1);
    let m_str = s.substring_char(p1 + 1, p2);
    let s_str = s.substring_char(p2 + 1, len);
    proof {
        assert(h_str@ =~= s@.take(p1 as int));
        assert(m_str@ =~= s@.subrange(p1 + 1, p2 as int));
        assert(s_str@ =~= s@.skip(p2 + 1));
    }
    let h = match crate::codec::parse_u64_token(h_str) {
        Some(v) => v,
        None => {
            return None;
        },
    };
    let m = match crate::codec::parse_u64_token(m_str) {
        Some(v) => v,
        None => {
            return None;
        },
    };
    let sec = match crate::codec::parse_u64_token(s_str) {
        Some(v) => v,
        None => {
            return None;
        },
    };
    if m >= 60 || sec >= 60 {
        return None;
    }
    if h > (u64::MAX - m * 60 - sec) / 3600 {
        proof {
            assert(h * 3600 + m * 60 + sec > u64::MAX) by (nonlinear_arith)
                requires
                    h > (u64::MAX - m * 60 - sec) / 3600,
                    m < 60,
                    sec < 60,
            ;
        }
        return None;
    }
    proof {
        assert(h * 3600 + m * 60 + sec <= u64::MAX) by (nonlinear_arith)
            requires
                h <= (u64::MAX - m * 60 - sec) / 3600,
                m < 60,
                sec < 60,
        ;
    }
    Some(h * 3600 + m * 60 + sec)
}

impl InGameTime {
    /// Parses a text line like `": 117% 3:03:23"` into a sample.  Accepts
    /// exactly the lines of the grammar `spec_parse_igt` describes:
    /// leading whitespace and one optional `:`, a percent token, and a
    /// `H:MM:SS` time token with two-digit minutes and seconds below sixty.
    pub fn parse(s: &str) -> (r: Result<InGameTime, SplitsError>)
        ensures
            match r {
                Ok(igt) => spec_parse_igt(s@) == Some(igt),
                Err(e) => spec_parse_igt(s@) is None && e == SplitsError::MalformedSample,
            },
    {
        let len = s.unicode_len();
        let a = skip_spaces_exec(s, 0);
        let b: usize = if a < len && s.get_char(a) == ':' {
            a + 1
        } else {
            a
        };
        let ghost toks = split_ws(s@, b as int);
        let t1s = skip_spaces_exec(s, b);
        if t1s == len {
            proof {
                lemma_split_ws_skip(s@, b as int, t1s as int);
            }
            return Err(SplitsError::MalformedSample);
        }
        let t1e = token_end_exec(s, t1s);
        let t2s = skip_spaces_exec(s, t1e);
        proof {
            lemma_split_ws_skip(s@, b as int, t1s as int);
            lemma_split_ws_skip(s@, t1e as int, t2s as int);
            assert(toks == seq![s@.subrange(t1s as int, t1e as int)] + split_ws(s@, t2s as int));
        }
        if t2s == len {
            proof {
                assert(toks.len() == 1);
            }
            return Err(SplitsError::MalformedSample);
        }
        let t2e = token_end_exec(s, t2s);
        let t3s = skip_spaces_exec(s, t2e);
        proof {
            lemma_split_ws_skip(s@, t2e as int, t3s as int);
            assert(split_ws(s@, t2s as int) == seq![s@.subrange(t2s as int, t2e as int)]
                + split_ws(s@, t3s as int));
        }
        if t3s != len {
            proof {
                assert(split_ws(s@, t3s as int).len() >= 1);
                assert(toks.len() >= 3);
            }
            return Err(SplitsError::MalformedSample);
        }
        proof {
            assert(split_ws(s@, t3s as int) =~= Seq::<Seq<char>>::empty());
            assert(toks =~= seq![
                s@.subrange(t1s as int, t1e as int),
                s@.subrange(t2s as int, t2e as int),
            ]);
        }
        // Strip trailing percent signs off the first token.
        let mut pe = t1e;
        while pe > t1s && s.get_char(pe - 1) == '%'
            invariant
                t1s <= pe <= t1e,
                t1e <= s@.len(),
                forall|j: int| pe <= j < t1e ==> s@[j] == '%',
            decreases pe,
        {
            pe = pe - 1;
        }
        proof {
            let tok = s@.subrange(t1s as int, t1e as int);
            lemma_strip_trailing_pct_at(tok, pe - t1s);
            assert(tok.take(pe - t1s) =~= s@.subrange(t1s as int, pe as int));
        }
        let pct_str = s.substring_char(t1s, pe);
        let time_str = s.substring_char(t2s, t2e);
        proof {
            assert(pct_str@ =~= s@.subrange(t1s as int, pe as int));
            assert(time_str@ =~= s@.subrange(t2s as int, t2e as int));
        }
        let percent = match parse_u32_token(pct_str) {
            Some(p) => p,
            None => {
                return Err(SplitsError::MalformedSample);
            },
        };
        let duration = match parse_igt_time(time_str) {
            Some(d) => d,
            None => {
                return Err(SplitsError::MalformedSample);
            },
        };
        Ok(InGameTime { percent, duration })
    }

    /// Renders the sample as `P% H:MM:SS`, the way it is displayed.
    pub fn format(&self) -> (r: String)
        ensures
            r@ == spec_u64_digits(self.percent as int) + "% "@ + spec_format_hms(
                self.duration as int,
            ),
    {
        let mut out = String::new();
        crate::codec::push_u64(&mut out, self.percent as u64);
        out.append("% ");
        let hms = crate::codec::format_hms(self.duration);
        out.append(hms.as_str());
        out
    }
}

} // verus!
