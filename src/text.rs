//! Character-level helpers on strings.
use vstd::prelude::*;
use vstd::std_specs::iter::IteratorSpec;

verus! {

/// The characters of `s`, in order.
pub fn chars_of(s: &str) -> (r: Vec<char>)
    ensures
        r@ == s@,
{
    let mut it = s.chars();
    let mut out: Vec<char> = Vec::new();
    loop
        invariant
            out@ + it.remaining() == s@,
            it.decrease() is Some,
        decreases it.decrease()->0,
    {
        match it.next() {
            Some(c) => {
                out.push(c);
            },
            None => {
                return out;
            },
        }
    }
}

/// Relies on `FromIterator<char>` for `String`: the string holds the
/// characters in order.
#[verifier::external_body]
pub(crate) fn string_of(c: &[char]) -> (r: String)
    ensures
        r@ == c@,
{
    c.iter().collect()
}


/// The first index at or after `i` where `s` holds `c`, or `s.len()` when
/// there is none.
pub open spec fn next_pos(s: Seq<char>, c: char, i: int) -> int
    decreases s.len() - i,
{
    if i >= s.len() {
        s.len() as int
    } else if s[i] == c {
        i
    } else {
        next_pos(s, c, i + 1)
    }
}

/// The last index before `i` where `s` holds `c`, or `-1` when there is none.
pub open spec fn last_before(s: Seq<char>, c: char, i: int) -> int
    decreases i,
{
    if i <= 0 {
        -1
    } else if s[i - 1] == c {
        i - 1
    } else {
        last_before(s, c, i - 1)
    }
}

/// What `next_pos` finds: a hit, or the end, with no hit in between.
pub proof fn lemma_next_pos(s: Seq<char>, c: char, i: int)
    requires
        0 <= i <= s.len(),
    ensures
        i <= next_pos(s, c, i) <= s.len(),
        next_pos(s, c, i) < s.len() ==> s[next_pos(s, c, i)] == c,
        forall|k: int| i <= k < next_pos(s, c, i) ==> s[k] != c,
    decreases s.len() - i,
{
    if i < s.len() && s[i] != c {
        lemma_next_pos(s, c, i + 1);
    }
}

/// What `last_before` finds: a hit, or `-1`, with no hit after it.
pub proof fn lemma_last_before(s: Seq<char>, c: char, i: int)
    requires
        0 <= i <= s.len(),
    ensures
        -1 <= last_before(s, c, i) < i,
        last_before(s, c, i) >= 0 ==> s[last_before(s, c, i)] == c,
        forall|k: int| last_before(s, c, i) < k < i ==> s[k] != c,
    decreases i,
{
    if i > 0 && s[i - 1] != c {
        lemma_last_before(s, c, i - 1);
    }
}

/// A position characterised by the `next_pos` facts is the one it returns.
pub proof fn lemma_next_pos_unique(s: Seq<char>, c: char, i: int, j: int)
    requires
        0 <= i <= j <= s.len(),
        j < s.len() ==> s[j] == c,
        forall|k: int| i <= k < j ==> s[k] != c,
    ensures
        next_pos(s, c, i) == j,
{
    lemma_next_pos(s, c, i);
}

/// A position characterised by the `last_before` facts is the one it returns.
pub proof fn lemma_last_before_unique(s: Seq<char>, c: char, i: int, j: int)
    requires
        -1 <= j < i <= s.len(),
        j >= 0 ==> s[j] == c,
        forall|k: int| j < k < i ==> s[k] != c,
    ensures
        last_before(s, c, i) == j,
{
    lemma_last_before(s, c, i);
}

/// Finds the first `c` at or after `i`.
pub fn find_next(s: &Vec<char>, c: char, i: usize) -> (r: usize)
    requires
        i <= s@.len(),
    ensures
        r as int == next_pos(s@, c, i as int),
{
    let mut j: usize = i;
    while j < s.len() && s[j] != c
        invariant
            i <= j <= s@.len(),
            next_pos(s@, c, j as int) == next_pos(s@, c, i as int),
        decreases s@.len() - j,
    {
        j = j + 1;
    }
    j
}

/// Finds the last `c` before `i`, or `None`.
pub fn find_last_before(s: &Vec<char>, c: char, i: usize) -> (r: Option<usize>)
    requires
        i <= s@.len(),
    ensures
        match r {
            Some(k) => k as int == last_before(s@, c, i as int),
            None => last_before(s@, c, i as int) == -1,
        },
{
    let mut j: usize = i;
    while j > 0 && s[j - 1] != c
        invariant
            j <= i <= s@.len(),
            last_before(s@, c, j as int) == last_before(s@, c, i as int),
        decreases j,
    {
        j = j - 1;
    }
    if j == 0 {
        None
    } else {
        Some(j - 1)
    }
}

/// The characters `i .. j` of `s` as a string.
pub fn substring(s: &Vec<char>, i: usize, j: usize) -> (r: String)
    requires
        i <= j <= s@.len(),
    ensures
        r@ == s@.subrange(i as int, j as int),
{
    string_of(vstd::slice::slice_subrange(s.as_slice(), i, j))
}

} // verus!
