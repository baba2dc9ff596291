//! Pure building blocks of the terminal view: time and delta rendering,
//! column padding, and display-width-aware name truncation.
//!
//! Printing itself, and coloring, happen outside the library; everything
//! here only computes strings.

use vstd::prelude::*;

use crate::codec::format_hms;
use crate::codec::push_two_digits;
use crate::codec::push_u64;
use crate::codec::spec_format_hms;
use crate::codec::spec_two_digits;
use crate::codec::spec_u64_digits;
use crate::model::Splits;

verus! {

/// The widest a split name is allowed to print.
pub const MAX_NAME_WIDTH: usize = 25;

/// The displayed width of a string in terminal columns, as the
/// unicode-width tables define it: a function of the characters alone.
pub uninterp spec fn width_of(s: Seq<char>) -> nat;

/// The extended grapheme clusters of a string, in order, as
/// unicode-segmentation draws their boundaries: a function of the
/// characters alone.
pub uninterp spec fn graphemes_of(s: Seq<char>) -> Seq<Seq<char>>;

/// The concatenation of the first `n` pieces.
pub open spec fn spec_cat_prefix(gs: Seq<Seq<char>>, n: int) -> Seq<char>
    decreases n,
{
    if n <= 0 {
        Seq::empty()
    } else {
        spec_cat_prefix(gs, n - 1) + gs[n - 1]
    }
}

/// The summed display width of the first `n` pieces.
pub open spec fn spec_sum_widths(gs: Seq<Seq<char>>, n: int) -> int
    decreases n,
{
    if n <= 0 {
        0
    } else {
        spec_sum_widths(gs, n - 1) + width_of(gs[n - 1])
    }
}

/// How many leading pieces fit a width budget, greedily.
pub open spec fn spec_greedy_len(gs: Seq<Seq<char>>, budget: int) -> int
    decreases gs.len(),
{
    if gs.len() == 0 {
        0
    } else if width_of(gs[0]) <= budget {
        1 + spec_greedy_len(gs.drop_first(), budget - width_of(gs[0]))
    } else {
        0
    }
}

/// `n` spaces.
pub open spec fn spec_spaces(n: int) -> Seq<char>
    decreases n,
{
    if n <= 0 {
        Seq::empty()
    } else {
        spec_spaces(n - 1).push(' ')
    }
}

/// A delta in seconds as the display shows it: an explicit sign, minutes
/// padded to two digits, and two digits of seconds.
pub open spec fn spec_format_delta(delta: int) -> Seq<char> {
    let mag = if delta >= 0 {
        delta
    } else {
        -delta
    };
    (if delta >= 0 {
        seq!['+']
    } else {
        seq!['-']
    }) + spec_min_two_digits(mag / 60) + seq![':'] + spec_two_digits(mag % 60)
}

/// At least two digits: zero-padded below one hundred, plain decimal above.
pub open spec fn spec_min_two_digits(n: int) -> Seq<char> {
    if n < 100 {
        spec_two_digits(n)
    } else {
        spec_u64_digits(n)
    }
}

/// The length of the longest split name in characters, capped.
pub open spec fn spec_max_name_chars(ss: Seq<crate::model::SplitView>) -> int
    decreases ss.len(),
{
    if ss.len() == 0 {
        0
    } else {
        let rest = spec_max_name_chars(ss.drop_last());
        if ss.last().name.len() > rest {
            ss.last().name.len() as int
        } else {
            rest
        }
    }
}

/// Relies on unicode-width's `UnicodeWidthStr::width`: the string's
/// displayed width in terminal columns, determined by its characters alone;
/// an empty string is zero columns wide.
#[verifier::external_body]
fn str_display_width(s: &str) -> (r: usize)
    ensures
        r == width_of(s@),
        s@.len() == 0 ==> r == 0,
{
    unicode_width::UnicodeWidthStr::width(s)
}

/// Relies on unicode-segmentation's `UnicodeSegmentation::graphemes` (with
/// extended clusters): the grapheme clusters of the string in order,
/// determined by its characters alone; concatenated, they give the string
/// back.
#[verifier::external_body]
fn grapheme_clusters(s: &str) -> (r: Vec<String>)
    ensures
        r.deep_view() == graphemes_of(s@),
        spec_cat_prefix(r.deep_view(), r.deep_view().len() as int) == s@,
{
    unicode_segmentation::UnicodeSegmentation::graphemes(s, true).map(|g| g.to_string()).collect()
}

impl Splits {
    /// A duration for display: `H:MM:SS`, or `-:--:--` when absent.
    pub fn format_time(duration: Option<u64>) -> (r: String)
        ensures
            match duration {
                Some(d) => r@ == spec_format_hms(d as int),
                None => r@ == "-:--:--"@,
            },
    {
        match duration {
            Some(d) => format_hms(d),
            None => {
                let s = "-:--:--";
                s.to_owned()
            },
        }
    }

    /// A delta against the personal best for display: a sign, minutes, and
    /// seconds (`+01:30`, `-00:12`).
    pub fn format_delta(delta: i64) -> (r: String)
        ensures
            r@ == spec_format_delta(delta as int),
    {
        let mag: u64 = if delta >= 0 {
            delta as u64
        } else {
            (-(delta as i128)) as u64
        };
        let mut out = String::new();
        if delta >= 0 {
            out.append("+");
        } else {
            out.append("-");
        }
        proof {
            reveal_strlit("+");
            reveal_strlit("-");
            assert(out@ =~= (if delta >= 0 {
                seq!['+']
            } else {
                seq!['-']
            }));
        }
        let minutes = mag / 60;
        if minutes < 100 {
            push_two_digits(&mut out, minutes);
        } else {
            push_u64(&mut out, minutes);
        }
        out.append(":");
        push_two_digits(&mut out, mag % 60);
        proof {
            reveal_strlit(":");
            assert(out@ =~= spec_format_delta(delta as int));
        }
        out
    }

    /// The column width the split names ask for: the longest name, capped at
    /// the maximum the display grants.
    pub fn compute_name_width(&self) -> (r: usize)
        ensures
            r == if spec_max_name_chars(self@.splits) > MAX_NAME_WIDTH {
                MAX_NAME_WIDTH as int
            } else {
                spec_max_name_chars(self@.splits)
            },
    {
        let n = self.splits.len();
        let mut best: usize = 0;
        let mut i: usize = 0;
        proof {
            assert(self@.splits.take(0) =~= Seq::<crate::model::SplitView>::empty());
        }
        while i < n
            invariant
                i <= n,
                n == self.splits@.len(),
                self@.splits.len() == n,
                best == spec_max_name_chars(self@.splits.take(i as int)),
                best <= usize::MAX,
            decreases n - i,
        {
            let len = self.splits[i].name.as_str().unicode_len();
            proof {
                assert(self@.splits.take(i + 1).drop_last() =~= self@.splits.take(i as int));
                assert(self@.splits.take(i + 1).last() == self@.splits[i as int]);
                assert(self@.splits[i as int].name == self.splits@[i as int].name@);
            }
            if len > best {
                best = len;
            }
            i = i + 1;
        }
        proof {
            assert(self@.splits.take(n as int) =~= self@.splits);
        }
        if best > MAX_NAME_WIDTH {
            MAX_NAME_WIDTH
        } else {
            best
        }
    }

    /// Pads a string on the right with spaces up to the target display
    /// width; a string already that wide is returned as it is.
    pub fn pad_str(s: &str, target_width: usize) -> (r: String)
        ensures
            r@ == s@ + spec_spaces(
                if width_of(s@) >= target_width {
                    0
                } else {
                    target_width - width_of(s@)
                },
            ),
    {
        let w = str_display_width(s);
        let mut out = s.to_owned();
        if w >= target_width {
            proof {
                assert(out@ =~= s@ + spec_spaces(0));
            }
            return out;
        }
        let mut i = w;
        while i < target_width
            invariant
                w <= i <= target_width,
                w == width_of(s@),
                w < target_width,
                out@ == s@ + spec_spaces(i - w),
            decreases target_width - i,
        {
            out.append(" ");
            proof {
                reveal_strlit(" ");
                assert(out@ =~= s@ + spec_spaces(i + 1 - w));
            }
            i = i + 1;
        }
        out
    }

    /// Truncates a name to a maximum display width.  A name that already
    /// fits is returned whole; otherwise the longest prefix of whole
    /// grapheme clusters fitting two columns less is kept and `..` marks the
    /// cut.
    pub fn truncate_name(name: &str, max_display_width: usize) -> (r: String)
        ensures
            width_of(name@) <= max_display_width ==> r@ == name@,
            width_of(name@) > max_display_width ==> ({
                let gs = graphemes_of(name@);
                let budget: int = if max_display_width >= 2 {
                    max_display_width - 2
                } else {
                    0
                };
                let n = spec_greedy_len(gs, budget);
                r@ == spec_cat_prefix(gs, n) + (if spec_sum_widths(gs, n) < width_of(name@) {
                    ".."@
                } else {
                    Seq::<char>::empty()
                })
            }),
    {
        let total = str_display_width(name);
        if total <= max_display_width {
            return name.to_owned();
        }
        let budget: usize = if max_display_width >= 2 {
            max_display_width - 2
        } else {
            0
        };
        let gs = grapheme_clusters(name);
        let ghost gsv = graphemes_of(name@);
        let m = gs.len();
        let mut out = String::new();
        let mut width: usize = 0;
        let mut remaining = budget;
        let mut i: usize = 0;
        proof {
            assert(gs.deep_view().len() == gs@.len());
            assert(out@ =~= spec_cat_prefix(gsv, 0));
            assert(gsv.skip(0) =~= gsv);
        }
        loop
            invariant
                i <= m,
                m == gsv.len(),
                gs.deep_view() == gsv,
                m == gs@.len(),
                budget <= usize::MAX,
                out@ == spec_cat_prefix(gsv, i as int),
                width == spec_sum_widths(gsv, i as int),
                width + remaining == budget,
                spec_greedy_len(gsv, budget as int) == i + spec_greedy_len(
                    gsv.skip(i as int),
                    remaining as int,
                ),
            ensures
                out@ == spec_cat_prefix(gsv, spec_greedy_len(gsv, budget as int)),
                width == spec_sum_widths(gsv, spec_greedy_len(gsv, budget as int)),
            decreases m - i,
        {
            if i == m {
                proof {
                    assert(gsv.skip(i as int) =~= Seq::<Seq<char>>::empty());
                }
                break ;
            }
            let g = &gs[i];
            let gw = str_display_width(g.as_str());
            proof {
                assert(gs.deep_view()[i as int] == gs@[i as int]@);
                assert(gsv.skip(i as int)[0] == gsv[i as int]);
                assert(gsv.skip(i as int).drop_first() =~= gsv.skip(i + 1));
            }
            if gw > remaining {
                proof {
                    assert(spec_greedy_len(gsv.skip(i as int), remaining as int) == 0);
                }
                break ;
            }
            out.append(g.as_str());
            width = width + gw;
            remaining = remaining - gw;
            i = i + 1;
        }
        if width < total {
            out.append("..");
        }
        proof {
            reveal_strlit("..");
            if !(width < total) {
                assert(out@ =~= out@ + Seq::<char>::empty());
            }
        }
        out
    }
}

} // verus!
