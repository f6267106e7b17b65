//! The local inventory: parsing of the package query's output.
use vstd::prelude::*;

use crate::error::OldeError;
use crate::text::{
    chars_of, find_last_before, find_next, last_before, lemma_last_before, lemma_next_pos,
    lemma_last_before_unique, lemma_next_pos_unique, next_pos, substring,
};

verus! {

/// An installed package, its version stripped of epoch and release.
pub struct InstalledPackage {
    pub name: String,
    pub version: String,
}

impl View for InstalledPackage {
    type V = (Seq<char>, Seq<char>);

    open spec fn view(&self) -> (Seq<char>, Seq<char>) {
        (self.name@, self.version@)
    }
}

/// `v` without its epoch: all up to and including the first colon.
pub open spec fn strip_epoch(v: Seq<char>) -> Seq<char> {
    let p = next_pos(v, ':', 0);
    if p < v.len() {
        v.subrange(p + 1, v.len() as int)
    } else {
        v
    }
}

/// The upstream part of a version string: the epoch removed, then all from
/// the last hyphen on; `None` when no hyphen is left to cut at.
pub open spec fn normal_version(v: Seq<char>) -> Option<Seq<char>> {
    let w = strip_epoch(v);
    let h = last_before(w, '-', w.len() as int);
    if h < 0 {
        None
    } else {
        Some(w.subrange(0, h))
    }
}

/// What one line of the query's output holds.
pub enum LineKind {
    /// No space: not a package line.
    Skip,
    /// A package whose version has no release suffix.
    Bad,
    /// A package: name and normalized version.
    Pkg(Seq<char>, Seq<char>),
}

/// Reads a line: the name up to the first space, the version after it.
pub open spec fn parse_line(l: Seq<char>) -> LineKind {
    let sp = next_pos(l, ' ', 0);
    if sp >= l.len() {
        LineKind::Skip
    } else {
        match normal_version(l.subrange(sp + 1, l.len() as int)) {
            None => LineKind::Bad,
            Some(v) => LineKind::Pkg(l.subrange(0, sp), v),
        }
    }
}

/// A line without the carriage return that may end it.
pub open spec fn strip_cr(l: Seq<char>) -> Seq<char> {
    if l.len() > 0 && l.last() == '\r' {
        l.drop_last()
    } else {
        l
    }
}

/// The lines of `s` that start at or after `start`.
pub open spec fn lines_from(s: Seq<char>, start: int) -> Seq<Seq<char>>
    decreases s.len() - start,
{
    if start < 0 || start >= s.len() {
        Seq::empty()
    } else {
        let e = next_pos(s, '\n', start);
        if e < start || e > s.len() {
            Seq::empty()
        } else if e == s.len() {
            seq![s.subrange(start, e)]
        } else {
            seq![strip_cr(s.subrange(start, e))] + lines_from(s, e + 1)
        }
    }
}

/// The lines of `s`, split at each newline; a carriage return just before
/// a newline belongs to the line ending.
pub open spec fn lines_of(s: Seq<char>) -> Seq<Seq<char>> {
    lines_from(s, 0)
}

/// Whether some line is a package line without a release suffix.
pub open spec fn has_bad_line(ls: Seq<Seq<char>>) -> bool {
    exists|k: int| 0 <= k < ls.len() && parse_line(ls[k]) is Bad
}

/// The packages that the lines name.
pub open spec fn packages_of(ls: Seq<Seq<char>>) -> Set<(Seq<char>, Seq<char>)>
    decreases ls.len(),
{
    if ls.len() == 0 {
        Set::empty()
    } else {
        let rest = packages_of(ls.drop_last());
        match parse_line(ls.last()) {
            LineKind::Pkg(n, v) => rest.insert((n, v)),
            _ => rest,
        }
    }
}

/// The packages that a sequence holds.
pub open spec fn package_set(ps: Seq<InstalledPackage>) -> Set<(Seq<char>, Seq<char>)> {
    Set::new(|x: (Seq<char>, Seq<char>)| exists|i: int| 0 <= i < ps.len() && ps[i]@ == x)
}

/// No package occurs twice.
pub open spec fn distinct_packages(ps: Seq<InstalledPackage>) -> bool {
    forall|i: int, j: int| 0 <= i < j < ps.len() ==> ps[i]@ != ps[j]@
}


/// The upstream part of the version `w` (see `normal_version`).
fn normalize_chars(w: &Vec<char>) -> (r: Option<String>)
    ensures
        match r {
            Some(x) => normal_version(w@) == Some(x@),
            None => normal_version(w@) is None,
        },
{
    let p = find_next(w, ':', 0);
    let rest: Vec<char> = if p < w.len() {
        vstd::slice::slice_to_vec(vstd::slice::slice_subrange(w.as_slice(), p + 1, w.len()))
    } else {
        w.clone()
    };
    proof {
        lemma_next_pos(w@, ':', 0);
        assert(rest@ == strip_epoch(w@));
    }
    match find_last_before(&rest, '-', rest.len()) {
        None => None,
        Some(h) => {
            proof {
                lemma_last_before(rest@, '-', rest@.len() as int);
            }
            Some(substring(&rest, 0, h))
        },
    }
}

/// The upstream part of a version string: the epoch (all up to the first
/// colon) removed, then the release suffix (all from the last hyphen on);
/// `None` where no hyphen is left.
pub fn normalize_version(v: &str) -> (r: Option<String>)
    ensures
        match r {
            Some(x) => normal_version(v@) == Some(x@),
            None => normal_version(v@) is None,
        },
{
    let w = chars_of(v);
    normalize_chars(&w)
}

/// One line of the query's output, read.
enum ParsedLine {
    Skip,
    Bad,
    Pkg(InstalledPackage),
}

fn parse_line_chars(l: &Vec<char>) -> (r: ParsedLine)
    ensures
        match r {
            ParsedLine::Skip => parse_line(l@) is Skip,
            ParsedLine::Bad => parse_line(l@) is Bad,
            ParsedLine::Pkg(p) => parse_line(l@) == LineKind::Pkg(p.name@, p.version@),
        },
{
    let sp = find_next(l, ' ', 0);
    proof {
        lemma_next_pos(l@, ' ', 0);
    }
    if sp >= l.len() {
        return ParsedLine::Skip;
    }
    let ver = vstd::slice::slice_to_vec(vstd::slice::slice_subrange(l.as_slice(), sp + 1, l.len()));
    match normalize_chars(&ver) {
        None => ParsedLine::Bad,
        Some(v) => ParsedLine::Pkg(InstalledPackage { name: substring(l, 0, sp), version: v }),
    }
}

/// Adds `p` to `ps` unless a package equal to it is there.
fn insert_package(ps: &mut Vec<InstalledPackage>, p: InstalledPackage)
    requires
        distinct_packages(old(ps)@),
    ensures
        distinct_packages(final(ps)@),
        package_set(final(ps)@) == package_set(old(ps)@).insert(p@),
{
    let mut i: usize = 0;
    let mut found = false;
    while i < ps.len() && !found
        invariant
            i <= ps@.len(),
            found ==> i > 0 && ps@[i - 1]@ == p@,
            !found ==> forall|k: int| 0 <= k < i ==> ps@[k]@ != p@,
        decreases ps@.len() - i,
    {
        found = ps[i].name == p.name && ps[i].version == p.version;
        i = i + 1;
    }
    if found {
        assert(package_set(ps@).contains(p@));
        assert(package_set(ps@).insert(p@) =~= package_set(ps@));
    } else {
        let ghost before = ps@;
        ps.push(p);
        assert(package_set(ps@) =~= package_set(before).insert(p@)) by {
            assert(ps@[before.len() as int]@ == p@);
            assert forall|x| package_set(before).contains(x) implies package_set(ps@).contains(x) by {
                let k = choose|k: int| 0 <= k < before.len() && before[k]@ == x;
                assert(ps@[k]@ == x);
            }
        }
    }
}

/// The first line of `ls` that is bad is at `k`.
pub open spec fn first_bad_at(ls: Seq<Seq<char>>, k: int) -> bool {
    &&& 0 <= k < ls.len()
    &&& parse_line(ls[k]) is Bad
    &&& forall|j: int| 0 <= j < k ==> !(parse_line(ls[j]) is Bad)
}

/// Reads the package query's output, one `<name> <version>` line per
/// package; lines without a space are skipped. Fails on the first package
/// whose version has no release suffix, and with `EmptyOutput(command)`
/// where no package is found.
pub fn get_packages(output: &str, command: &str) -> (r: Result<Vec<InstalledPackage>, OldeError>)
    ensures
        match r {
            Ok(ps) => {
                &&& !has_bad_line(lines_of(output@))
                &&& package_set(ps@) == packages_of(lines_of(output@))
                &&& distinct_packages(ps@)
                &&& ps@.len() > 0
            },
            Err(OldeError::MissingRelease(l)) => exists|k: int|
                first_bad_at(lines_of(output@), k) && lines_of(output@)[k] == l@,
            Err(OldeError::EmptyOutput(c)) => {
                &&& !has_bad_line(lines_of(output@))
                &&& packages_of(lines_of(output@)).is_empty()
                &&& c@ == command@
            },
            Err(_) => false,
        },
{
    let s = chars_of(output);
    let mut out: Vec<InstalledPackage> = Vec::new();
    let mut start: usize = 0;
    let ghost mut done: Seq<Seq<char>> = Seq::empty();
    while start < s.len()
        invariant
            start <= s@.len(),
            s@ == output@,
            lines_of(s@) == done + lines_from(s@, start as int),
            !has_bad_line(done),
            package_set(out@) == packages_of(done),
            distinct_packages(out@),
        decreases s@.len() - start,
    {
        let e = find_next(&s, '\n', start);
        proof {
            lemma_next_pos(s@, '\n', start as int);
        }
        let end: usize = if e < s.len() && e > start && s[e - 1] == '\r' {
            e - 1
        } else {
            e
        };
        let line = vstd::slice::slice_to_vec(vstd::slice::slice_subrange(s.as_slice(), start, end));
        let ghost next_done = done.push(line@);
        proof {
            if e < s@.len() {
                assert(line@ == strip_cr(s@.subrange(start as int, e as int)));
                assert(lines_from(s@, start as int) == seq![line@] + lines_from(s@, e + 1));
            } else {
                assert(lines_from(s@, start as int) == seq![line@]);
                assert(lines_from(s@, s@.len() as int) =~= Seq::<Seq<char>>::empty());
            }
            assert(next_done.drop_last() == done);
            assert(next_done.last() == line@);
        }
        match parse_line_chars(&line) {
            ParsedLine::Bad => {
                proof {
                    assert(first_bad_at(lines_of(s@), done.len() as int)) by {
                        assert(lines_of(s@)[done.len() as int] == line@);
                        assert forall|j: int| 0 <= j < done.len() implies !(parse_line(
                            lines_of(s@)[j],
                        ) is Bad) by {
                            assert(lines_of(s@)[j] == done[j]);
                        }
                    }
                }
                return Err(OldeError::MissingRelease(substring(&s, start, end)));
            },
            ParsedLine::Skip => {},
            ParsedLine::Pkg(p) => {
                insert_package(&mut out, p);
            },
        }
        proof {
            assert(!has_bad_line(next_done)) by {
                assert forall|k: int| 0 <= k < next_done.len() implies !(parse_line(
                    next_done[k],
                ) is Bad) by {
                    if k < done.len() {
                        assert(next_done[k] == done[k]);
                    }
                }
            }
            done = next_done;
        }
        start = if e < s.len() {
            e + 1
        } else {
            s.len()
        };
        proof {
            assert(lines_of(s@) =~= done + lines_from(s@, start as int));
        }
    }
    proof {
        assert(lines_from(s@, start as int) =~= Seq::<Seq<char>>::empty());
        assert(done =~= lines_of(s@));
    }
    if out.len() == 0 {
        assert(package_set(out@) =~= Set::empty());
        return Err(OldeError::EmptyOutput(command.to_string()));
    }
    Ok(out)
}


/// Normalizing `V-R`, a version without epoch (no colon) whose `R` holds
/// no hyphen, gives `V`.
pub proof fn lemma_normalize_plain(v: Seq<char>, r: Seq<char>)
    requires
        !v.contains(':'),
        !r.contains(':'),
        !r.contains('-'),
    ensures
        normal_version(v + seq!['-'] + r) == Some(v),
{
    let s = v + seq!['-'] + r;
    assert forall|k: int| 0 <= k < s.len() implies s[k] != ':' by {
        if k < v.len() {
            assert(s[k] == v[k]);
        } else if k > v.len() {
            assert(s[k] == r[k - v.len() - 1]);
        } else {
            assert(s[k] == '-');
        }
    }
    lemma_next_pos_unique(s, ':', 0, s.len() as int);
    assert(strip_epoch(s) == s);
    assert forall|k: int| v.len() < k < s.len() implies s[k] != '-' by {
        assert(s[k] == r[k - v.len() - 1]);
    }
    lemma_last_before_unique(s, '-', s.len() as int, v.len() as int);
    assert(s.subrange(0, v.len() as int) =~= v);
}

/// Normalizing `E:V-R`, where `E` holds no colon and `R` no hyphen, gives
/// `V`: the epoch and the release suffix are both cut off.
pub proof fn lemma_normalize_epoch(e: Seq<char>, v: Seq<char>, r: Seq<char>)
    requires
        !e.contains(':'),
        !r.contains('-'),
    ensures
        normal_version(e + seq![':'] + v + seq!['-'] + r) == Some(v),
{
    let s = e + seq![':'] + v + seq!['-'] + r;
    let w = v + seq!['-'] + r;
    assert forall|k: int| 0 <= k < e.len() implies s[k] != ':' by {
        assert(s[k] == e[k]);
    }
    lemma_next_pos_unique(s, ':', 0, e.len() as int);
    assert(strip_epoch(s) =~= w);
    assert forall|k: int| v.len() < k < w.len() implies w[k] != '-' by {
        assert(w[k] == r[k - v.len() - 1]);
    }
    lemma_last_before_unique(w, '-', w.len() as int, v.len() as int);
    assert(w.subrange(0, v.len() as int) =~= v);
}

/// Empty output names no package and holds no bad line, so reading it
/// fails with `EmptyOutput`.
pub proof fn lemma_empty_output(s: Seq<char>)
    requires
        s.len() == 0,
    ensures
        !has_bad_line(lines_of(s)),
        packages_of(lines_of(s)).is_empty(),
{
    assert(lines_of(s) =~= Seq::<Seq<char>>::empty());
}

} // verus!
