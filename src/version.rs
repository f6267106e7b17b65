//! Comparison of version strings by their numeric parts.
use vstd::prelude::*;

use crate::text::chars_of;

verus! {

/// An ASCII decimal digit.
pub open spec fn is_digit(c: char) -> bool {
    '0' <= c && c <= '9'
}

/// The value of an ASCII decimal digit.
pub open spec fn digit_value(c: char) -> int {
    (c as u32) as int - 48
}

/// The values of the maximal runs of digits of `s` from `i` on, where the
/// run in progress has the value `cur`.
pub open spec fn runs_from(s: Seq<char>, i: int, cur: Option<int>) -> Seq<int>
    decreases s.len() - i,
{
    if i >= s.len() {
        match cur {
            Some(v) => seq![v],
            None => Seq::empty(),
        }
    } else if is_digit(s[i]) {
        let c = match cur {
            Some(v) => v,
            None => 0,
        };
        runs_from(s, i + 1, Some(c * 10 + digit_value(s[i])))
    } else {
        match cur {
            Some(v) => seq![v] + runs_from(s, i + 1, None),
            None => runs_from(s, i + 1, None),
        }
    }
}

/// The numeric parts of a version string: the values of its maximal runs
/// of ASCII digits, in order ("1.2-3" has 1, 2, 3).
pub open spec fn digit_runs(s: Seq<char>) -> Seq<int> {
    runs_from(s, 0, None)
}

/// Whether, from `i` on, no run of digits reaches a value above `u32::MAX`.
pub open spec fn runs_fit_from(s: Seq<char>, i: int, cur: int) -> bool
    decreases s.len() - i,
{
    if cur > u32::MAX {
        false
    } else if i >= s.len() {
        true
    } else if is_digit(s[i]) {
        runs_fit_from(s, i + 1, cur * 10 + digit_value(s[i]))
    } else {
        runs_fit_from(s, i + 1, 0)
    }
}

/// Whether every run of digits of `s` has a value that fits in a `u32`.
pub open spec fn runs_fit(s: Seq<char>) -> bool {
    runs_fit_from(s, 0, 0)
}

/// Lexicographic order of numeric parts, a proper prefix coming first.
pub open spec fn runs_lt(a: Seq<int>, b: Seq<int>) -> bool
    decreases a.len(),
{
    if a.len() == 0 {
        b.len() > 0
    } else if b.len() == 0 {
        false
    } else if a[0] != b[0] {
        a[0] < b[0]
    } else {
        runs_lt(a.drop_first(), b.drop_first())
    }
}

/// Whether version `a` is at least version `b`.
pub open spec fn version_ge(a: Seq<char>, b: Seq<char>) -> bool {
    !runs_lt(digit_runs(a), digit_runs(b))
}

/// Relies on `vercomp::Version::from` and the ordering of its `number`:
/// the number holds the values of the maximal runs of ASCII digits, which
/// are compared one by one, a proper prefix being smaller. Building the
/// number panics where a run's value does not fit in a `u32`.
#[verifier::external_body]
pub(crate) fn vercomp_at_least(a: &str, b: &str) -> (r: bool)
    requires
        runs_fit(a@),
        runs_fit(b@),
    ensures
        r == version_ge(a@, b@),
{
    vercomp::Version::from(a).number >= vercomp::Version::from(b).number
}

/// Whether every run of digits of `s` fits in a `u32`, so that `s` can be
/// compared.
pub fn comparable(s: &str) -> (r: bool)
    ensures
        r == runs_fit(s@),
{
    let c = chars_of(s);
    let mut i: usize = 0;
    let mut cur: u64 = 0;
    while i < c.len()
        invariant
            i <= c@.len(),
            c@ == s@,
            cur <= u32::MAX,
            runs_fit(s@) == runs_fit_from(s@, i as int, cur as int),
        decreases c@.len() - i,
    {
        let ch = c[i];
        if '0' <= ch && ch <= '9' {
            let d = (ch as u32 - 48) as u64;
            cur = cur * 10 + d;
            if cur > 0xffff_ffff {
                assert(runs_fit_from(s@, i + 1, cur as int) == false);
                return false;
            }
        } else {
            cur = 0;
        }
        i = i + 1;
    }
    true
}

} // verus!
