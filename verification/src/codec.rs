//! Human-readable duration codec.
//!
//! Durations are stored on disk as the string `H:MM:SS`: hours without an
//! upper bound, minutes and seconds printed with exactly two digits and both
//! below sixty.  Parsing accepts any number of digits per component (as the
//! standard unsigned-integer parser does) but insists on exactly three
//! colon-separated numeric components and on minutes and seconds below sixty.

use vstd::prelude::*;

use crate::SplitsError;

verus! {

/// Whether `c` is a decimal digit.
pub open spec fn is_digit(c: char) -> bool {
    48 <= c as u32 <= 57
}

/// The numeric value of a decimal digit.
pub open spec fn digit_val(c: char) -> int {
    c as u32 - 48
}

/// The decimal digit with value `d` (meaningful for `0 <= d <= 9`).
pub open spec fn digit_char(d: int) -> char {
    if d == 0 {
        '0'
    } else if d == 1 {
        '1'
    } else if d == 2 {
        '2'
    } else if d == 3 {
        '3'
    } else if d == 4 {
        '4'
    } else if d == 5 {
        '5'
    } else if d == 6 {
        '6'
    } else if d == 7 {
        '7'
    } else if d == 8 {
        '8'
    } else {
        '9'
    }
}

/// Every character of `s` is a decimal digit.
pub open spec fn all_digits(s: Seq<char>) -> bool {
    forall|i: int| 0 <= i < s.len() ==> is_digit(#[trigger] s[i])
}

/// The value of a digit string, most significant digit first.
pub open spec fn digits_value(s: Seq<char>) -> int
    decreases s.len(),
{
    if s.len() == 0 {
        0
    } else {
        digits_value(s.drop_last()) * 10 + digit_val(s.last())
    }
}

/// The shortest decimal representation of `n`.
pub open spec fn spec_u64_digits(n: int) -> Seq<char>
    decreases n,
{
    if n <= 0 {
        seq![digit_char(0)]
    } else if n < 10 {
        seq![digit_char(n)]
    } else {
        spec_u64_digits(n / 10).push(digit_char(n % 10))
    }
}

/// The two-digit, zero-padded representation of `n` (meaningful for `n < 100`).
pub open spec fn spec_two_digits(n: int) -> Seq<char> {
    seq![digit_char(n / 10), digit_char(n % 10)]
}

/// The `H:MM:SS` representation of a duration of `total` whole seconds.
pub open spec fn spec_format_hms(total: int) -> Seq<char> {
    spec_u64_digits(total / 3600) + seq![':'] + spec_two_digits((total % 3600) / 60) + seq![
        ':',
    ] + spec_two_digits(total % 60)
}

proof fn lemma_digit_char_val(d: int)
    requires
        0 <= d <= 9,
    ensures
        is_digit(digit_char(d)),
        digit_val(digit_char(d)) == d,
{
}

/// The value denoted by the shortest decimal representation of `n` is `n` itself.
pub proof fn lemma_digits_value_of_u64(n: int)
    requires
        n >= 0,
    ensures
        all_digits(spec_u64_digits(n)),
        spec_u64_digits(n).len() >= 1,
        digits_value(spec_u64_digits(n)) == n,
    decreases n,
{
    if n < 10 {
        lemma_digit_char_val(n);
        let s = spec_u64_digits(n);
        assert(s =~= seq![digit_char(n)]);
        assert(s.drop_last() =~= Seq::<char>::empty());
        assert(digits_value(s) == digits_value(s.drop_last()) * 10 + digit_val(s.last()));
        assert(digits_value(s) == n);
    } else {
        lemma_digits_value_of_u64(n / 10);
        lemma_digit_char_val(n % 10);
        let s = spec_u64_digits(n);
        assert(s.drop_last() =~= spec_u64_digits(n / 10));
        assert(s.last() == digit_char(n % 10));
        assert(s.len() >= 1);
        assert(digits_value(s) == digits_value(s.drop_last()) * 10 + digit_val(s.last()));
        assert(digits_value(s) == (n / 10) * 10 + (n % 10));
        assert(n == (n / 10) * 10 + n % 10) by (nonlinear_arith);
        assert(all_digits(s)) by {
            assert(forall|i: int|
                0 <= i < s.len() - 1 ==> s[i] == #[trigger] spec_u64_digits(n / 10)[i]);
        }
    }
}

/// The two-digit representation of `n < 100` denotes `n`.
pub proof fn lemma_two_digits_value(n: int)
    requires
        0 <= n < 100,
    ensures
        all_digits(spec_two_digits(n)),
        spec_two_digits(n).len() == 2,
        digits_value(spec_two_digits(n)) == n,
{
    lemma_digit_char_val(n / 10);
    lemma_digit_char_val(n % 10);
    let s = spec_two_digits(n);
    let hd = seq![digit_char(n / 10)];
    assert(s.drop_last() =~= hd);
    assert(hd.drop_last() =~= Seq::<char>::empty());
    assert(digits_value(Seq::<char>::empty()) == 0);
    assert(digits_value(hd) == 0 * 10 + digit_val(hd.last()));
    assert(digits_value(hd) == n / 10);
    assert(s.last() == digit_char(n % 10));
    assert(digits_value(s) == digits_value(hd) * 10 + digit_val(s.last()));
    assert(digits_value(s) == (n / 10) * 10 + n % 10);
    assert(n == (n / 10) * 10 + n % 10) by (nonlinear_arith);
}

/// Digits are never a colon or a plus sign.
proof fn lemma_digit_not_punct(c: char)
    requires
        is_digit(c),
    ensures
        c != ':',
        c != '+',
{
    if c == ':' {
        assert(c as u32 == 58);
    }
    if c == '+' {
        assert(c as u32 == 43);
    }
}

/// Round trip of the duration codec: formatting any duration whose minutes
/// and seconds are below sixty and reparsing it gives the duration back.
pub proof fn lemma_hms_round_trip(h: u64, m: u64, s: u64)
    requires
        m < 60,
        s < 60,
        h * 3600 + m * 60 + s <= u64::MAX,
    ensures
        spec_format_hms(h * 3600 + m * 60 + s) == spec_format_hms(
            (h * 3600 + m * 60 + s) as u64 as int,
        ),
        spec_parse_hms(spec_format_hms(h * 3600 + m * 60 + s)) == Some(
            (h * 3600 + m * 60 + s) as u64,
        ),
{
    let total = h * 3600 + m * 60 + s;
    assert(total / 3600 == h && (total % 3600) / 60 == m && total % 60 == s) by (nonlinear_arith)
        requires
            m < 60,
            s < 60,
            total == h * 3600 + m * 60 + s,
            h >= 0,
    ;
    let hd = spec_u64_digits(h as int);
    let md = spec_two_digits(m as int);
    let sd = spec_two_digits(s as int);
    let fs = spec_format_hms(total);
    lemma_digits_value_of_u64(h as int);
    lemma_two_digits_value(m as int);
    lemma_two_digits_value(s as int);
    assert(fs =~= hd + seq![':'] + md + seq![':'] + sd);
    let n = hd.len() as int;
    // The first colon stands right after the hour digits.
    assert(fs[n] == ':');
    assert forall|j: int| 0 <= j < n implies fs[j] != ':' by {
        assert(fs[j] == hd[j]);
        lemma_digit_not_punct(hd[j]);
    }
    lemma_find_char_at(fs, ':', n);
    let rest = fs.skip(n + 1);
    assert(rest =~= md + seq![':'] + sd);
    // The second colon stands right after the two minute digits.
    assert(rest[2] == ':');
    assert forall|j: int| 0 <= j < 2 implies rest[j] != ':' by {
        assert(rest[j] == md[j]);
        lemma_digit_not_punct(md[j]);
    }
    lemma_find_char_at(rest, ':', 2);
    let s_part = rest.skip(3);
    assert(s_part =~= sd);
    assert forall|j: int| 0 <= j < s_part.len() implies s_part[j] != ':' by {
        lemma_digit_not_punct(sd[j]);
    }
    lemma_find_char_none(s_part, ':');
    // Each component reparses to its value.
    assert(fs.take(n) =~= hd);
    assert(rest.take(2) =~= md);
    lemma_digit_not_punct(hd[0]);
    lemma_digit_not_punct(md[0]);
    lemma_digit_not_punct(sd[0]);
    assert(spec_number_digits(hd) == hd);
    assert(spec_number_digits(md) == md);
    assert(spec_number_digits(sd) == sd);
    assert(spec_parse_u64(hd) == Some(h));
    assert(spec_parse_u64(md) == Some(m));
    assert(spec_parse_u64(sd) == Some(s));
}

/// Appends the decimal digit `d` to `s`.
fn push_digit(s: &mut String, d: u64)
    requires
        d < 10,
    ensures
        final (s)@ == old(s)@ + seq![digit_char(d as int)],
{
    let digits: &str = "0123456789";
    proof {
        reveal_strlit("0123456789");
    }
    let piece = digits.substring_ascii(d as usize, d as usize + 1);
    s.append(piece);
    proof {
        assert(piece@ =~= seq![digit_char(d as int)]);
    }
}

/// Appends the shortest decimal representation of `n` to `s`.
pub(crate) fn push_u64(s: &mut String, n: u64)
    ensures
        final (s)@ == old(s)@ + spec_u64_digits(n as int),
    decreases n,
{
    if n < 10 {
        push_digit(s, n);
    } else {
        push_u64(s, n / 10);
        push_digit(s, n % 10);
        proof {
            assert(final (s)@ =~= old(s)@ + spec_u64_digits(n as int));
        }
    }
}

/// Appends the two-digit, zero-padded representation of `n` to `s`.
pub(crate) fn push_two_digits(s: &mut String, n: u64)
    requires
        n < 100,
    ensures
        final (s)@ == old(s)@ + spec_two_digits(n as int),
{
    push_digit(s, n / 10);
    push_digit(s, n % 10);
    proof {
        assert(final (s)@ =~= old(s)@ + spec_two_digits(n as int));
    }
}

/// The digits of an unsigned decimal token, after an optional leading `+`
/// (the standard unsigned-integer parser accepts one).
pub open spec fn spec_number_digits(s: Seq<char>) -> Seq<char> {
    if s.len() > 0 && s[0] == '+' {
        s.drop_first()
    } else {
        s
    }
}

/// What the standard unsigned 64-bit parser accepts: an optional leading
/// `+`, then one or more decimal digits denoting a value that fits.
pub open spec fn spec_parse_u64(s: Seq<char>) -> Option<u64> {
    let d = spec_number_digits(s);
    if d.len() >= 1 && all_digits(d) && digits_value(d) <= u64::MAX {
        Some(digits_value(d) as u64)
    } else {
        None
    }
}

/// The position of the first occurrence of `c` in `s`, or `-1`.
pub open spec fn find_char(s: Seq<char>, c: char) -> int
    decreases s.len(),
{
    if s.len() == 0 {
        -1
    } else if s[0] == c {
        0
    } else {
        let r = find_char(s.drop_first(), c);
        if r < 0 {
            -1
        } else {
            r + 1
        }
    }
}

/// `find_char` returns the first occurrence.
pub proof fn lemma_find_char_at(s: Seq<char>, c: char, i: int)
    requires
        0 <= i < s.len(),
        s[i] == c,
        forall|j: int| 0 <= j < i ==> s[j] != c,
    ensures
        find_char(s, c) == i,
    decreases s.len(),
{
    if i > 0 {
        lemma_find_char_at(s.drop_first(), c, i - 1);
    }
}

/// `find_char` finds something when `c` occurs.
pub proof fn lemma_find_char_exists(s: Seq<char>, c: char, i: int)
    requires
        0 <= i < s.len(),
        s[i] == c,
    ensures
        find_char(s, c) >= 0,
    decreases s.len(),
{
    if s[0] != c {
        lemma_find_char_exists(s.drop_first(), c, i - 1);
    }
}

/// `find_char` returns `-1` exactly when `c` does not occur.
pub proof fn lemma_find_char_none(s: Seq<char>, c: char)
    requires
        forall|j: int| 0 <= j < s.len() ==> s[j] != c,
    ensures
        find_char(s, c) == -1,
    decreases s.len(),
{
    if s.len() > 0 {
        lemma_find_char_none(s.drop_first(), c);
    }
}

/// The three components of a string of the shape `A:B:C` (exactly two
/// colons), or nothing.
pub open spec fn spec_hms_parts(s: Seq<char>) -> Option<(Seq<char>, Seq<char>, Seq<char>)> {
    let p1 = find_char(s, ':');
    if p1 < 0 {
        None
    } else {
        let rest = s.skip(p1 + 1);
        let p2 = find_char(rest, ':');
        if p2 < 0 {
            None
        } else {
            let s_part = rest.skip(p2 + 1);
            if find_char(s_part, ':') >= 0 {
                None
            } else {
                Some((s.take(p1), rest.take(p2), s_part))
            }
        }
    }
}

/// The duration denoted by a `H:MM:SS` string: defined when the string has
/// exactly three colon-separated numeric components, minutes and seconds are
/// below sixty, and the total number of seconds fits in 64 bits.
pub open spec fn spec_parse_hms(s: Seq<char>) -> Option<u64> {
    match spec_hms_parts(s) {
        Some((h_part, m_part, s_part)) => {
            match (spec_parse_u64(h_part), spec_parse_u64(m_part), spec_parse_u64(s_part)) {
                (Some(h), Some(m), Some(sec)) => {
                    if m < 60 && sec < 60 && h * 3600 + m * 60 + sec <= u64::MAX {
                        Some((h * 3600 + m * 60 + sec) as u64)
                    } else {
                        None
                    }
                },
                _ => None,
            }
        },
        None => None,
    }
}

/// The first occurrence of `c` in `s` at or after `from`.
fn find_char_from(s: &str, c: char, from: usize) -> (r: Option<usize>)
    requires
        from <= s@.len(),
    ensures
        match r {
            Some(i) => from <= i < s@.len() && s@[i as int] == c && (forall|j: int|
                from <= j < i ==> s@[j] != c),
            None => forall|j: int| from <= j < s@.len() ==> s@[j] != c,
        },
{
    let len = s.unicode_len();
    let mut i = from;
    while i < len
        invariant
            from <= i <= len,
            len == s@.len(),
            forall|j: int| from <= j < i ==> s@[j] != c,
        decreases len - i,
    {
        if s.get_char(i) == c {
            return Some(i);
        }
        i = i + 1;
    }
    None
}

/// Parses an unsigned decimal token exactly as the standard library does:
/// an optional leading `+`, then one or more digits, rejecting overflow.
pub(crate) fn parse_u64_token(s: &str) -> (r: Option<u64>)
    ensures
        r == spec_parse_u64(s@),
{
    let ghost d = spec_number_digits(s@);
    let len = s.unicode_len();
    let start: usize = if len > 0 && s.get_char(0) == '+' {
        1
    } else {
        0
    };
    proof {
        assert(d =~= s@.skip(start as int));
    }
    if start >= len {
        proof {
            if spec_parse_u64(s@) is Some {
                assert(d.len() >= 1);
            }
        }
        return None;
    }
    let mut acc: u64 = 0;
    let mut i = start;
    while i < len
        invariant
            start <= i <= len,
            len == s@.len(),
            d == spec_number_digits(s@),
            d == s@.skip(start as int),
            all_digits(d.take(i - start)),
            acc == digits_value(d.take(i - start)),
        decreases len - i,
    {
        let c = s.get_char(i);
        let cv = c as u32;
        if cv < 48 || cv > 57 {
            proof {
                assert(d[i - start] == s@[i as int]);
                assert(!is_digit(d[i - start]));
                assert(!all_digits(d));
                assert(spec_parse_u64(s@) is None);
            }
            return None;
        }
        let dv = (cv - 48) as u64;
        if acc > (u64::MAX - dv) / 10 {
            proof {
                assert(d[i - start] == s@[i as int]);
                lemma_digits_value_step(d, i - start, acc as int, dv as int);
                assert(spec_parse_u64(s@) is None);
            }
            return None;
        }
        proof {
            assert(acc * 10 + dv <= u64::MAX) by (nonlinear_arith)
                requires
                    acc <= (u64::MAX - dv) / 10,
                    dv < 10,
            ;
            assert(d.take(i - start + 1).drop_last() =~= d.take(i - start));
            assert(d.take(i - start + 1).last() == d[i - start]);
            assert(d[i - start] == s@[i as int]);
        }
        acc = acc * 10 + dv;
        i = i + 1;
    }
    proof {
        assert(d.take(i - start) =~= d);
    }
    Some(acc)
}

/// When the accumulator would overflow, the value of the whole digit string
/// exceeds `u64::MAX`, so the token denotes no 64-bit value.
proof fn lemma_digits_value_step(d: Seq<char>, k: int, acc: int, dv: int)
    requires
        0 <= k < d.len(),
        all_digits(d.take(k)),
        is_digit(d[k]),
        digit_val(d[k]) == dv,
        acc == digits_value(d.take(k)),
        acc > (u64::MAX - dv) / 10,
        0 <= dv < 10,
    ensures
        !(d.len() >= 1 && all_digits(d) && digits_value(d) <= u64::MAX),
{
    if all_digits(d) {
        lemma_digits_value_nonneg(d.take(k));
        assert(acc * 10 + dv > u64::MAX) by (nonlinear_arith)
            requires
                acc > (u64::MAX - dv) / 10,
                0 <= dv < 10,
                acc >= 0,
        ;
        assert(d.take(k + 1).drop_last() =~= d.take(k));
        assert(d.take(k + 1).last() == d[k]);
        assert(digits_value(d.take(k + 1)) == acc * 10 + dv);
        lemma_digits_value_prefix_le(d, k + 1);
        assert(digits_value(d) > u64::MAX);
    }
}

/// The value of a digit string is non-negative.
pub proof fn lemma_digits_value_nonneg(s: Seq<char>)
    requires
        all_digits(s),
    ensures
        digits_value(s) >= 0,
    decreases s.len(),
{
    if s.len() > 0 {
        assert(all_digits(s.drop_last()));
        lemma_digits_value_nonneg(s.drop_last());
        assert(digits_value(s.drop_last()) * 10 >= 0) by (nonlinear_arith)
            requires
                digits_value(s.drop_last()) >= 0,
        ;
    }
}

/// Extending a digit string never decreases its value.
proof fn lemma_digits_value_prefix_le(s: Seq<char>, k: int)
    requires
        0 <= k <= s.len(),
        all_digits(s),
    ensures
        digits_value(s.take(k)) <= digits_value(s),
    decreases s.len() - k,
{
    if k < s.len() {
        lemma_digits_value_prefix_le(s, k + 1);
        assert(s.take(k + 1).drop_last() =~= s.take(k));
        assert(s.take(k + 1).last() == s[k]);
        assert(is_digit(s[k]));
        let v = digits_value(s.take(k));
        assert(all_digits(s.take(k)));
        lemma_digits_value_nonneg(s.take(k));
        let dl = digit_val(s[k]);
        assert(v <= v * 10 + dl) by (nonlinear_arith)
            requires
                v >= 0,
                dl >= 0,
        ;
        assert(digits_value(s.take(k + 1)) == v * 10 + dl);
    } else {
        assert(s.take(k) =~= s);
    }
}

/// Locates the two colons of a string of the shape `A:B:C`, rejecting any
/// other number of colons.
pub(crate) fn hms_bounds(s: &str) -> (r: Option<(usize, usize)>)
    ensures
        match r {
            Some((p1, p2)) => {
                &&& p1 < p2 < s@.len()
                &&& spec_hms_parts(s@) == Some(
                    (s@.take(p1 as int), s@.subrange(p1 + 1, p2 as int), s@.skip(p2 + 1)),
                )
            },
            None => spec_hms_parts(s@) is None,
        },
{
    let _len = s.unicode_len();
    let p1 = match find_char_from(s, ':', 0) {
        Some(i) => i,
        None => {
            proof {
                lemma_find_char_none(s@, ':');
            }
            return None;
        },
    };
    proof {
        lemma_find_char_at(s@, ':', p1 as int);
    }
    let ghost rest = s@.skip(p1 + 1);
    let p2 = match find_char_from(s, ':', p1 + 1) {
        Some(i) => i,
        None => {
            proof {
                assert(forall|j: int| 0 <= j < rest.len() ==> rest[j] != ':');
                lemma_find_char_none(rest, ':');
            }
            return None;
        },
    };
    proof {
        assert(rest[p2 - p1 - 1] == ':');
        assert(forall|j: int| 0 <= j < p2 - p1 - 1 ==> rest[j] != ':');
        lemma_find_char_at(rest, ':', p2 - p1 - 1);
    }
    match find_char_from(s, ':', p2 + 1) {
        Some(i3) => {
            proof {
                let s_part = rest.skip(p2 - p1);
                assert(s_part[i3 - p2 - 1] == s@[i3 as int]);
                lemma_find_char_exists(s_part, ':', i3 - p2 - 1);
            }
            return None;
        },
        None => {
            proof {
                let s_part = rest.skip(p2 - p1);
                assert(forall|j: int| 0 <= j < s_part.len() ==> s_part[j] == s@[j + p2 + 1]);
                lemma_find_char_none(s_part, ':');
            }
        },
    }
    proof {
        assert(rest.take(p2 - p1 - 1) =~= s@.subrange(p1 + 1, p2 as int));
        assert(rest.skip(p2 - p1) =~= s@.skip(p2 + 1));
    }
    Some((p1, p2))
}

/// Parses a `H:MM:SS` duration string into whole seconds.
/// Exactly the strings whose three colon-separated components are valid
/// unsigned numbers, with minutes and seconds below sixty and a total that
/// fits in 64 bits, are accepted.
pub fn parse_hms(s: &str) -> (r: Result<u64, SplitsError>)
    ensures
        match r {
            Ok(total) => spec_parse_hms(s@) == Some(total),
            Err(e) => spec_parse_hms(s@) is None && e == SplitsError::MalformedDuration,
        },
{
    let len = s.unicode_len();
    let (p1, p2) = match hms_bounds(s) {
        Some(b) => b,
        None => {
            return Err(SplitsError::MalformedDuration);
        },
    };
    let h_str = s.substring_char(0, p1);
    let m_str = s.substring_char(p1 + 1, p2);
    let s_str = s.substring_char(p2 + 1, len);
    proof {
        assert(h_str@ =~= s@.take(p1 as int));
        assert(m_str@ =~= s@.subrange(p1 + 1, p2 as int));
        assert(s_str@ =~= s@.skip(p2 + 1));
    }
    let h = match parse_u64_token(h_str) {
        Some(v) => v,
        None => {
            return Err(SplitsError::MalformedDuration);
        },
    };
    let m = match parse_u64_token(m_str) {
        Some(v) => v,
        None => {
            return Err(SplitsError::MalformedDuration);
        },
    };
    let sec = match parse_u64_token(s_str) {
        Some(v) => v,
        None => {
            return Err(SplitsError::MalformedDuration);
        },
    };
    if m >= 60 || sec >= 60 {
        return Err(SplitsError::MalformedDuration);
    }
    if h > (u64::MAX - m * 60 - sec) / 3600 {
        proof {
            assert(h * 3600 + m * 60 + sec > u64::MAX) by (nonlinear_arith)
                requires
                    h > (u64::MAX - m * 60 - sec) / 3600,
                    m < 60,
                    sec < 60,
            ;
        }
        return Err(SplitsError::MalformedDuration);
    }
    proof {
        assert(h * 3600 + m * 60 + sec <= u64::MAX) by (nonlinear_arith)
            requires
                h <= (u64::MAX - m * 60 - sec) / 3600,
                m < 60,
                sec < 60,
        ;
    }
    Ok(h * 3600 + m * 60 + sec)
}

/// Formats a duration of `total` whole seconds as `H:MM:SS`.
pub fn format_hms(total: u64) -> (r: String)
    ensures
        r@ == spec_format_hms(total as int),
{
    let hours = total / 3600;
    let minutes = (total % 3600) / 60;
    let seconds = total % 60;
    proof {
        assert((total as int % 3600) / 60 < 60) by (nonlinear_arith);
    }
    let mut out = String::new();
    push_u64(&mut out, hours);
    out.append(":");
    push_two_digits(&mut out, minutes);
    out.append(":");
    push_two_digits(&mut out, seconds);
    proof {
        reveal_strlit(":");
        assert(out@ =~= spec_format_hms(total as int));
    }
    out
}

} // verus!
