//! Reading a time signature given as text: "common"/"C", "cut"/"C|", or
//! "upper/lower" with optional blanks around each number.

use vstd::prelude::*;
use crate::events::{TimeInfo, TimeInfoView, opt_time_view};
use crate::text::{str_eq, owned};

verus! {

/// Characters with the Unicode White_Space property (what `char::is_whitespace` accepts).
pub open spec fn is_white_space(c: char) -> bool {
    ||| '\u{9}' <= c <= '\u{d}'
    ||| c == ' '
    ||| c == '\u{85}'
    ||| c == '\u{a0}'
    ||| c == '\u{1680}'
    ||| '\u{2000}' <= c <= '\u{200a}'
    ||| c == '\u{2028}'
    ||| c == '\u{2029}'
    ||| c == '\u{202f}'
    ||| c == '\u{205f}'
    ||| c == '\u{3000}'
}

fn white_space(c: char) -> (r: bool)
    ensures
        r == is_white_space(c),
{
    ('\u{9}' <= c && c <= '\u{d}') || c == ' ' || c == '\u{85}' || c == '\u{a0}' || c == '\u{1680}'
        || ('\u{2000}' <= c && c <= '\u{200a}') || c == '\u{2028}' || c == '\u{2029}' || c
        == '\u{202f}' || c == '\u{205f}' || c == '\u{3000}'
}

/// Number of leading white-space characters.
pub open spec fn leading_ws(s: Seq<char>) -> int
    decreases s.len(),
{
    if s.len() > 0 && is_white_space(s[0]) {
        1 + leading_ws(s.drop_first())
    } else {
        0
    }
}

/// Number of trailing white-space characters.
pub open spec fn trailing_ws(s: Seq<char>) -> int
    decreases s.len(),
{
    if s.len() > 0 && is_white_space(s.last()) {
        1 + trailing_ws(s.drop_last())
    } else {
        0
    }
}

/// The text without leading and trailing white space.
pub open spec fn spec_trim(s: Seq<char>) -> Seq<char> {
    let t = s.skip(leading_ws(s));
    t.take(t.len() - trailing_ws(t))
}

/// Value of a run of decimal digits.
pub open spec fn digits_value(s: Seq<char>) -> int
    decreases s.len(),
{
    if s.len() == 0 {
        0
    } else {
        10 * digits_value(s.drop_last()) + (s.last() as int - '0' as int)
    }
}

/// Every character is an ASCII decimal digit.
pub open spec fn all_digits(s: Seq<char>) -> bool {
    forall|i: int| 0 <= i < s.len() ==> '0' <= #[trigger] s[i] <= '9'
}

/// Decimal `i32` as `str::parse::<i32>` reads it: an optional `+` or `-`,
/// then one or more ASCII digits, with a value in range; anything else fails.
pub open spec fn spec_parse_i32(s: Seq<char>) -> Option<i32> {
    let neg = s.len() > 0 && s[0] == '-';
    let signed = s.len() > 0 && (s[0] == '-' || s[0] == '+');
    let d = if signed {
        s.drop_first()
    } else {
        s
    };
    if d.len() == 0 || !all_digits(d) {
        None
    } else {
        let v = if neg {
            -digits_value(d)
        } else {
            digits_value(d)
        };
        if i32::MIN <= v <= i32::MAX {
            Some(v as i32)
        } else {
            None
        }
    }
}

proof fn lemma_digits_value_nonneg(s: Seq<char>)
    requires
        all_digits(s),
    ensures
        digits_value(s) >= 0,
    decreases s.len(),
{
    if s.len() > 0 {
        assert(all_digits(s.drop_last()));
        lemma_digits_value_nonneg(s.drop_last());
    }
}

proof fn lemma_digits_value_grows(s: Seq<char>, n: int)
    requires
        all_digits(s),
        0 <= n <= s.len(),
    ensures
        digits_value(s.take(n)) <= digits_value(s),
    decreases s.len() - n,
{
    if n < s.len() {
        lemma_digits_value_grows(s, n + 1);
        assert(s.take(n + 1).drop_last() =~= s.take(n));
        assert(all_digits(s.take(n)));
        lemma_digits_value_nonneg(s.take(n));
    } else {
        assert(s.take(n) =~= s);
    }
}

/// Parse a decimal `i32` from `s[lo..hi]`.
fn parse_i32_range(s: &str, lo: usize, hi: usize) -> (r: Option<i32>)
    requires
        lo <= hi <= s@.len(),
    ensures
        r == spec_parse_i32(s@.subrange(lo as int, hi as int)),
{
    let ghost t = s@.subrange(lo as int, hi as int);
    let mut i = lo;
    let mut neg = false;
    if lo < hi {
        let c = s.get_char(lo);
        if c == '-' || c == '+' {
            neg = c == '-';
            i = lo + 1;
        }
    }
    let ghost d = s@.subrange(i as int, hi as int);
    let ghost signed = t.len() > 0 && (t[0] == '-' || t[0] == '+');
    assert(d =~= (if signed {
        t.drop_first()
    } else {
        t
    }));
    assert(neg == (t.len() > 0 && t[0] == '-'));
    if i == hi {
        return None;
    }
    let mut v: i64 = 0;
    let mut k = i;
    assert(d.take(0) =~= Seq::<char>::empty());
    while k < hi
        invariant
            i <= k <= hi <= s@.len(),
            t == s@.subrange(lo as int, hi as int),
            d == s@.subrange(i as int, hi as int),
            d == (if signed {
                t.drop_first()
            } else {
                t
            }),
            signed == (t.len() > 0 && (t[0] == '-' || t[0] == '+')),
            neg == (t.len() > 0 && t[0] == '-'),
            d.len() > 0,
            all_digits(d.take(k - i)),
            v == digits_value(d.take(k - i)),
            0 <= v <= 2147483648,
        decreases hi - k,
    {
        let c = s.get_char(k);
        assert(d[k - i] == c);
        if !('0' <= c && c <= '9') {
            assert(!all_digits(d));
            return None;
        }
        assert(d.take(k - i + 1).drop_last() =~= d.take(k - i));
        assert(d.take(k - i + 1).last() == c);
        assert(all_digits(d.take(k - i + 1)));
        let digit = (c as u32 - '0' as u32) as i64;
        v = v * 10 + digit;
        k += 1;
        if v > 2147483648 {
            proof {
                if all_digits(d) {
                    lemma_digits_value_grows(d, k - i);
                }
            }
            return None;
        }
    }
    assert(d.take(k - i) =~= d);
    let r: i64 = if neg { -v } else { v };
    if r < -2147483648 || r > 2147483647 {
        None
    } else {
        Some(r as i32)
    }
}

/// Bounds of `s[lo..hi]` without its leading and trailing white space.
fn trim_range(s: &str, lo: usize, hi: usize) -> (r: (usize, usize))
    requires
        lo <= hi <= s@.len(),
    ensures
        lo <= r.0 <= r.1 <= hi,
        s@.subrange(r.0 as int, r.1 as int) == spec_trim(s@.subrange(lo as int, hi as int)),
{
    let ghost t = s@.subrange(lo as int, hi as int);
    let mut a = lo;
    assert(t.skip(0) =~= t);
    while a < hi && white_space(s.get_char(a))
        invariant
            lo <= a <= hi <= s@.len(),
            t == s@.subrange(lo as int, hi as int),
            leading_ws(t) == (a - lo) + leading_ws(t.skip(a - lo)),
        decreases hi - a,
    {
        assert(t.skip(a - lo)[0] == s@[a as int]);
        assert(t.skip(a - lo).drop_first() =~= t.skip(a - lo + 1));
        a += 1;
    }
    proof {
        if a < hi {
            assert(t.skip(a - lo)[0] == s@[a as int]);
        }
        assert(leading_ws(t.skip(a - lo)) == 0);
    }
    let ghost u = t.skip(leading_ws(t));
    assert(u =~= s@.subrange(a as int, hi as int));
    let mut b = hi;
    assert(u.take(u.len() as int) =~= u);
    while b > a && white_space(s.get_char(b - 1))
        invariant
            lo <= a <= b <= hi <= s@.len(),
            u == s@.subrange(a as int, hi as int),
            trailing_ws(u) == (hi - b) + trailing_ws(u.take(b - a)),
        decreases b - a,
    {
        assert(u.take(b - a).last() == s@[b - 1]);
        assert(u.take(b - a).drop_last() =~= u.take(b - a - 1));
        b -= 1;
    }
    proof {
        if b > a {
            assert(u.take(b - a).last() == s@[b - 1]);
        }
        assert(trailing_ws(u.take(b - a)) == 0);
        assert(s@.subrange(a as int, b as int) =~= u.take(u.len() - trailing_ws(u)));
    }
    (a, b)
}

/// Read a time signature: "C", "c" or "common" is common time (4/4),
/// "C|", "c|" or "cut" cut time (2/2), and text with exactly one `/`
/// between two integers (blanks around them allowed) a numeric signature;
/// anything else, or no text, gives none.
pub fn parse_time_sig(ts: Option<&str>) -> (r: Option<TimeInfo>)
    ensures
        opt_time_view(r) == spec_parse_time_sig(
            match ts {
                Some(t) => Some(t@),
                None => None,
            },
        ),
{
    let t = match ts {
        None => {
            return None;
        },
        Some(t) => t,
    };
    if str_eq(t, "C") || str_eq(t, "c") || str_eq(t, "common") {
        return Some(TimeInfo { upper: 4, lower: 4, symbol: Some(owned("common")) });
    }
    if str_eq(t, "C|") || str_eq(t, "c|") || str_eq(t, "cut") {
        return Some(TimeInfo { upper: 2, lower: 2, symbol: Some(owned("cut")) });
    }
    let n = t.unicode_len();
    let mut slashes: usize = 0;
    let mut pos: usize = 0;
    let mut i: usize = 0;
    while i < n
        invariant
            n == t@.len(),
            i <= n,
            slashes <= i,
            slashes == 0 ==> forall|q: int| 0 <= q < i ==> t@[q] != '/',
            slashes >= 1 ==> pos < i && t@[pos as int] == '/',
            slashes == 1 ==> forall|q: int| 0 <= q < i && q != pos ==> t@[q] != '/',
            slashes >= 2 ==> exists|q: int| 0 <= q < i && q != pos && t@[q] == '/',
        decreases n - i,
    {
        if t.get_char(i) == '/' {
            if slashes == 0 {
                pos = i;
            }
            slashes += 1;
        }
        i += 1;
    }
    let ghost tv = t@;
    if slashes != 1 {
        proof {
            if exists|p: int| 0 <= p < tv.len() && tv[p] == '/' && forall|q: int|
                0 <= q < tv.len() && q != p ==> tv[q] != '/' {
                let p = choose|p: int| 0 <= p < tv.len() && tv[p] == '/' && forall|q: int|
                    0 <= q < tv.len() && q != p ==> tv[q] != '/';
                if slashes >= 2 {
                    let q = choose|q: int| 0 <= q < n && q != pos && tv[q] == '/';
                    assert(tv[pos as int] == '/');
                }
            }
        }
        return None;
    }
    proof {
        let p = choose|p: int| 0 <= p < tv.len() && tv[p] == '/';
        assert(p == pos);
        assert(tv.take(pos as int) =~= tv.subrange(0, pos as int));
        assert(tv.skip(pos + 1) =~= tv.subrange(pos + 1, n as int));
    }
    let (a1, b1) = trim_range(t, 0, pos);
    let (a2, b2) = trim_range(t, pos + 1, n);
    let upper = parse_i32_range(t, a1, b1);
    let lower = parse_i32_range(t, a2, b2);
    match (upper, lower) {
        (Some(u), Some(l)) => Some(TimeInfo { upper: u, lower: l, symbol: None }),
        _ => None,
    }
}

/// Time signature of a textual spec, or none when it is absent or unreadable.
pub open spec fn spec_parse_time_sig(ts: Option<Seq<char>>) -> Option<TimeInfoView> {
    match ts {
        None => None,
        Some(t) => if t == "C"@ || t == "c"@ || t == "common"@ {
            Some(TimeInfoView { upper: 4, lower: 4, symbol: Some("common"@) })
        } else if t == "C|"@ || t == "c|"@ || t == "cut"@ {
            Some(TimeInfoView { upper: 2, lower: 2, symbol: Some("cut"@) })
        } else if exists|p: int| 0 <= p < t.len() && t[p] == '/' && forall|q: int|
            0 <= q < t.len() && q != p ==> t[q] != '/' {
            let p = choose|p: int| 0 <= p < t.len() && t[p] == '/';
            match (
                spec_parse_i32(spec_trim(t.take(p))),
                spec_parse_i32(spec_trim(t.skip(p + 1))),
            ) {
                (Some(u), Some(l)) => Some(TimeInfoView { upper: u, lower: l, symbol: None }),
                _ => None,
            }
        } else {
            None
        },
    }
}

} // verus!
