//! Reading a count typed by the user.

use vstd::prelude::*;

verus! {

/// A white-space character (the Unicode `White_Space` property).
pub open spec fn is_space(c: char) -> bool {
    ||| '\u{9}' <= c <= '\u{d}'
    ||| c == ' '
    ||| c == '\u{85}'
    ||| c == '\u{a0}'
    ||| c == '\u{1680}'
    ||| '\u{2000}' <= c <= '\u{200a}'
    ||| c == '\u{2028}'
    ||| c == '\u{2029}'
    ||| c == '\u{202f}'
    ||| c == '\u{205f}'
    ||| c == '\u{3000}'
}

fn space(c: char) -> (r: bool)
    ensures
        r == is_space(c),
{
    ('\u{9}' <= c && c <= '\u{d}') || c == ' ' || c == '\u{85}' || c == '\u{a0}' || c == '\u{1680}'
        || ('\u{2000}' <= c && c <= '\u{200a}') || c == '\u{2028}' || c == '\u{2029}' || c
        == '\u{202f}' || c == '\u{205f}' || c == '\u{3000}'
}

/// `s` without its leading white space.
pub open spec fn trim_start(s: Seq<char>) -> Seq<char>
    decreases s.len(),
{
    if s.len() > 0 && is_space(s[0]) {
        trim_start(s.drop_first())
    } else {
        s
    }
}

/// `s` without its trailing white space.
pub open spec fn trim_end(s: Seq<char>) -> Seq<char>
    decreases s.len(),
{
    if s.len() > 0 && is_space(s.last()) {
        trim_end(s.drop_last())
    } else {
        s
    }
}

/// Every character of `d` is an ASCII digit.
pub open spec fn all_digits(d: Seq<char>) -> bool {
    forall|i: int| 0 <= i < d.len() ==> '0' <= #[trigger] d[i] <= '9'
}

/// The number that the decimal digits `d` write.
pub open spec fn digits_value(d: Seq<char>) -> nat
    decreases d.len(),
{
    if d.len() == 0 {
        0
    } else {
        digits_value(d.drop_last()) * 10 + ((d.last() as nat) - ('0' as nat)) as nat
    }
}

/// The number that a line holds: white space around an optional `+` and
/// at least one decimal digit, with a value that fits a `usize`.
pub open spec fn line_number(line: Seq<char>) -> Option<usize> {
    let t = trim_end(trim_start(line));
    let d = if t.len() > 0 && t[0] == '+' {
        t.drop_first()
    } else {
        t
    };
    if d.len() > 0 && all_digits(d) && digits_value(d) <= usize::MAX {
        Some(digits_value(d) as usize)
    } else {
        None
    }
}

proof fn lemma_digits_grow(d: Seq<char>, k: int)
    requires
        all_digits(d),
        0 <= k <= d.len(),
    ensures
        digits_value(d.take(k)) <= digits_value(d),
    decreases d.len() - k,
{
    if k < d.len() {
        lemma_digits_grow(d, k + 1);
        assert(d.take(k + 1).drop_last() =~= d.take(k));
    } else {
        assert(d.take(k) =~= d);
    }
}

/// The number on a line typed by the user, or `None` where the line holds
/// no such number.
pub fn parse_number(line: &str) -> (r: Option<usize>)
    ensures
        r == line_number(line@),
{
    let ghost s = line@;
    let n = line.unicode_len();
    let mut lo: usize = 0;
    proof {
        assert(s.subrange(0, n as int) =~= s);
    }
    while lo < n && space(line.get_char(lo))
        invariant
            s == line@,
            n == s.len(),
            lo <= n,
            trim_start(s) == trim_start(s.subrange(lo as int, n as int)),
        decreases n - lo,
    {
        proof {
            assert(s.subrange(lo as int, n as int).drop_first() =~= s.subrange(lo + 1, n as int));
        }
        lo = lo + 1;
    }
    proof {
        if lo < n {
            assert(!is_space(s.subrange(lo as int, n as int)[0]));
        }
        assert(trim_start(s) == s.subrange(lo as int, n as int));
    }
    let mut hi: usize = n;
    while hi > lo && space(line.get_char(hi - 1))
        invariant
            s == line@,
            n == s.len(),
            lo <= hi <= n,
            trim_end(s.subrange(lo as int, n as int)) == trim_end(s.subrange(lo as int, hi as int)),
        decreases hi,
    {
        proof {
            assert(s.subrange(lo as int, hi as int).drop_last() =~= s.subrange(lo as int, hi - 1));
        }
        hi = hi - 1;
    }
    let ghost t = s.subrange(lo as int, hi as int);
    proof {
        if hi > lo {
            assert(!is_space(t.last()));
        }
        assert(trim_end(trim_start(s)) == t);
    }
    let mut first = lo;
    if lo < hi && line.get_char(lo) == '+' {
        first = lo + 1;
    }
    let ghost d = s.subrange(first as int, hi as int);
    proof {
        if lo < hi && t[0] == '+' {
            assert(t.drop_first() =~= d);
        } else {
            assert(t =~= d);
        }
    }
    if first >= hi {
        return None;
    }
    let mut value: usize = 0;
    let mut i = first;
    while i < hi
        invariant
            s == line@,
            n == s.len(),
            first <= i <= hi <= n,
            d == s.subrange(first as int, hi as int),
            trim_end(trim_start(s)) == t,
            d == (if t.len() > 0 && t[0] == '+' {
                t.drop_first()
            } else {
                t
            }),
            all_digits(d.take(i - first)),
            value == digits_value(d.take(i - first)),
        decreases hi - i,
    {
        let c = line.get_char(i);
        proof {
            assert(d[i - first] == c);
            assert(d.take(i - first + 1).drop_last() =~= d.take(i - first));
        }
        if c < '0' || c > '9' {
            proof {
                assert(!all_digits(d));
            }
            return None;
        }
        let digit = (c as u32 - '0' as u32) as usize;
        if value > (usize::MAX - digit) / 10 {
            proof {
                assert(digits_value(d.take(i - first + 1)) > usize::MAX) by (nonlinear_arith)
                    requires
                        value > (usize::MAX - digit) / 10,
                        digits_value(d.take(i - first + 1)) == value * 10 + digit,
                        digit <= 9,
                ;
                if all_digits(d) {
                    lemma_digits_grow(d, i - first + 1);
                }
            }
            return None;
        }
        proof {
            assert(value * 10 + digit <= usize::MAX) by (nonlinear_arith)
                requires
                    value <= (usize::MAX - digit) / 10,
                    digit <= 9,
            ;
        }
        value = value * 10 + digit;
        i = i + 1;
    }
    proof {
        assert(d.take(i - first) =~= d);
    }
    Some(value)
}

} // verus!
