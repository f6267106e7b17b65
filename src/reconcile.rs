//! The join of the two inventories and the classification of its entries.
use vstd::prelude::*;

use crate::error::OldeError;
use crate::installed::InstalledPackage;
use crate::remote::{clone_opt, opt_view, RemotePackage};

verus! {

/// An installed package joined with a remote record of the same name.
pub struct JoinedEntry {
    pub project: String,
    pub local_name: String,
    pub latest: Option<String>,
    pub installed: String,
}

impl View for JoinedEntry {
    type V = (Seq<char>, Seq<char>, Option<Seq<char>>, Seq<char>);

    open spec fn view(&self) -> Self::V {
        (self.project@, self.local_name@, opt_view(self.latest), self.installed@)
    }
}

/// Installed package `i` and remote record `j` share a name.
pub open spec fn joins(inst: Seq<InstalledPackage>, rem: Seq<RemotePackage>, i: int, j: int) -> bool {
    &&& 0 <= i < inst.len()
    &&& 0 <= j < rem.len()
    &&& inst[i].name@ == rem[j].name@
}

/// The entry that the join of `i` and `j` makes.
pub open spec fn entry_of(
    inst: Seq<InstalledPackage>,
    rem: Seq<RemotePackage>,
    i: int,
    j: int,
) -> <JoinedEntry as View>::V {
    (rem[j].project@, inst[i].name@, opt_view(rem[j].latest), inst[i].version@)
}

/// All entries of the join.
pub open spec fn joined_set(inst: Seq<InstalledPackage>, rem: Seq<RemotePackage>) -> Set<
    <JoinedEntry as View>::V,
> {
    Set::new(
        |x: <JoinedEntry as View>::V|
            exists|i: int, j: int| joins(inst, rem, i, j) && entry_of(inst, rem, i, j) == x,
    )
}

/// Two different joins give the same project and local name.
pub open spec fn has_duplicate_key(inst: Seq<InstalledPackage>, rem: Seq<RemotePackage>) -> bool {
    exists|i1: int, j1: int, i2: int, j2: int|
        #![trigger joins(inst, rem, i1, j1), joins(inst, rem, i2, j2)]
        joins(inst, rem, i1, j1) && joins(inst, rem, i2, j2) && (i1 != i2 || j1 != j2)
            && rem[j1].project@ == rem[j2].project@ && inst[i1].name@ == inst[i2].name@
}

/// Two different joins give the same project and the local name `n`.
pub open spec fn duplicate_name(inst: Seq<InstalledPackage>, rem: Seq<RemotePackage>, n: Seq<char>) -> bool {
    exists|i1: int, j1: int, i2: int, j2: int|
        #![trigger joins(inst, rem, i1, j1), joins(inst, rem, i2, j2)]
        joins(inst, rem, i1, j1) && joins(inst, rem, i2, j2) && (i1 != i2 || j1 != j2)
            && rem[j1].project@ == rem[j2].project@ && inst[i1].name@ == n && inst[i2].name@ == n
}

/// No remote record has the name of package `p`.
pub open spec fn is_missing(p: InstalledPackage, rem: Seq<RemotePackage>) -> bool {
    forall|j: int| 0 <= j < rem.len() ==> p.name@ != #[trigger] rem[j].name@
}

/// The names of the installed packages that no remote record has, in order.
pub open spec fn missing_of(inst: Seq<InstalledPackage>, rem: Seq<RemotePackage>) -> Seq<Seq<char>>
    decreases inst.len(),
{
    if inst.len() == 0 {
        Seq::empty()
    } else {
        let rest = missing_of(inst.drop_last(), rem);
        if is_missing(inst.last(), rem) {
            rest.push(inst.last().name@)
        } else {
            rest
        }
    }
}

/// The entries that a sequence holds.
pub open spec fn entry_set(es: Seq<JoinedEntry>) -> Set<<JoinedEntry as View>::V> {
    Set::new(|x: <JoinedEntry as View>::V| exists|k: int| 0 <= k < es.len() && es[k]@ == x)
}

/// No two entries share a project and a local name.
pub open spec fn distinct_keys(es: Seq<JoinedEntry>) -> bool {
    forall|a: int, b: int|
        0 <= a < b < es.len() ==> (es[a].project@ != es[b].project@ || es[a].local_name@
            != es[b].local_name@)
}

/// The names of a sequence of strings.
pub open spec fn names_view(v: Seq<String>) -> Seq<Seq<char>> {
    v.map_values(|s: String| s@)
}


/// Pair `(i1, j1)` comes before `(i, j)` in the order of the join.
spec fn done(i1: int, j1: int, i: int, j: int) -> bool {
    i1 < i || (i1 == i && j1 < j)
}

/// `es` holds the entries of exactly the joins before `(i, j)`; entry `k`
/// comes from the join `src[k]`.
spec fn covers(
    inst: Seq<InstalledPackage>,
    rem: Seq<RemotePackage>,
    es: Seq<JoinedEntry>,
    src: Seq<(int, int)>,
    i: int,
    j: int,
) -> bool {
    &&& src.len() == es.len()
    &&& forall|k: int|
        #![trigger src[k]]
        0 <= k < src.len() ==> done(src[k].0, src[k].1, i, j) && joins(inst, rem, src[k].0, src[k].1)
            && es[k]@ == entry_of(inst, rem, src[k].0, src[k].1)
    &&& forall|i2: int, j2: int|
        #![trigger joins(inst, rem, i2, j2)]
        done(i2, j2, i, j) && joins(inst, rem, i2, j2) ==> exists|k: int|
            0 <= k < src.len() && src[k] == (i2, j2)
}

/// No two joins before `(i, j)` share a key.
spec fn no_dup_upto(inst: Seq<InstalledPackage>, rem: Seq<RemotePackage>, i: int, j: int) -> bool {
    forall|i1: int, j1: int, i2: int, j2: int|
        #![trigger joins(inst, rem, i1, j1), joins(inst, rem, i2, j2)]
        done(i1, j1, i, j) && done(i2, j2, i, j) && joins(inst, rem, i1, j1) && joins(
            inst,
            rem,
            i2,
            j2,
        ) && (i1 != i2 || j1 != j2) ==> (rem[j1].project@ != rem[j2].project@ || inst[i1].name@
            != inst[i2].name@)
}

/// Whether an entry of `es` has the given project and local name.
fn has_key(es: &Vec<JoinedEntry>, project: &String, name: &String) -> (r: bool)
    ensures
        r == exists|k: int|
            0 <= k < es@.len() && es@[k].project@ == project@ && es@[k].local_name@ == name@,
{
    let mut k: usize = 0;
    while k < es.len()
        invariant
            k <= es@.len(),
            forall|k2: int|
                0 <= k2 < k ==> (es@[k2].project@ != project@ || es@[k2].local_name@ != name@),
        decreases es@.len() - k,
    {
        if es[k].project == *project && es[k].local_name == *name {
            return true;
        }
        k = k + 1;
    }
    false
}

proof fn lemma_step_join(
    inst: Seq<InstalledPackage>,
    rem: Seq<RemotePackage>,
    old_es: Seq<JoinedEntry>,
    es: Seq<JoinedEntry>,
    src: Seq<(int, int)>,
    i: int,
    j: int,
)
    requires
        covers(inst, rem, old_es, src, i, j),
        no_dup_upto(inst, rem, i, j),
        joins(inst, rem, i, j),
        es.len() == old_es.len() + 1,
        forall|k: int| 0 <= k < old_es.len() ==> es[k] == old_es[k],
        es[old_es.len() as int]@ == entry_of(inst, rem, i, j),
        forall|k: int|
            0 <= k < old_es.len() ==> (old_es[k].project@ != rem[j].project@
                || old_es[k].local_name@ != inst[i].name@),
    ensures
        covers(inst, rem, es, src.push((i, j)), i, j + 1),
        no_dup_upto(inst, rem, i, j + 1),
{
    let s2 = src.push((i, j));
    assert forall|k: int| #![trigger s2[k]] 0 <= k < s2.len() implies done(s2[k].0, s2[k].1, i, j + 1)
        && joins(inst, rem, s2[k].0, s2[k].1) && es[k]@ == entry_of(inst, rem, s2[k].0, s2[k].1) by {
        if k < src.len() {
            assert(s2[k] == src[k]);
            assert(es[k] == old_es[k]);
        }
    }
    assert forall|i2: int, j2: int|
        #![trigger joins(inst, rem, i2, j2)]
        done(i2, j2, i, j + 1) && joins(inst, rem, i2, j2) implies exists|k: int|
            0 <= k < s2.len() && s2[k] == (i2, j2) by {
        if i2 == i && j2 == j {
            assert(s2[src.len() as int] == (i2, j2));
        } else {
            assert(done(i2, j2, i, j));
            let k = choose|k: int| 0 <= k < src.len() && src[k] == (i2, j2);
            assert(s2[k] == src[k]);
        }
    }
    assert forall|i1: int, j1: int, i2: int, j2: int|
        done(i1, j1, i, j + 1) && done(i2, j2, i, j + 1) && #[trigger] joins(inst, rem, i1, j1)
            && #[trigger] joins(inst, rem, i2, j2) && (i1 != i2 || j1 != j2) implies (
    rem[j1].project@ != rem[j2].project@ || inst[i1].name@ != inst[i2].name@) by {
        if i1 == i && j1 == j {
            assert(done(i2, j2, i, j));
            let k = choose|k: int| 0 <= k < src.len() && src[k] == (i2, j2);
            assert(old_es[k]@ == entry_of(inst, rem, i2, j2));
        } else if i2 == i && j2 == j {
            assert(done(i1, j1, i, j));
            let k = choose|k: int| 0 <= k < src.len() && src[k] == (i1, j1);
            assert(old_es[k]@ == entry_of(inst, rem, i1, j1));
        } else {
            assert(done(i1, j1, i, j));
            assert(done(i2, j2, i, j));
        }
    }
}

proof fn lemma_step_skip(
    inst: Seq<InstalledPackage>,
    rem: Seq<RemotePackage>,
    es: Seq<JoinedEntry>,
    src: Seq<(int, int)>,
    i: int,
    j: int,
)
    requires
        covers(inst, rem, es, src, i, j),
        no_dup_upto(inst, rem, i, j),
        !joins(inst, rem, i, j),
    ensures
        covers(inst, rem, es, src, i, j + 1),
        no_dup_upto(inst, rem, i, j + 1),
{
    assert forall|k: int| #![trigger src[k]] 0 <= k < src.len() implies done(src[k].0, src[k].1, i, j + 1) by {
        assert(done(src[k].0, src[k].1, i, j));
    }
    assert forall|i2: int, j2: int|
        #![trigger joins(inst, rem, i2, j2)]
        done(i2, j2, i, j + 1) && joins(inst, rem, i2, j2) implies exists|k: int|
            0 <= k < src.len() && src[k] == (i2, j2) by {
        assert(done(i2, j2, i, j));
    }
    assert forall|i1: int, j1: int, i2: int, j2: int|
        done(i1, j1, i, j + 1) && done(i2, j2, i, j + 1) && #[trigger] joins(inst, rem, i1, j1)
            && #[trigger] joins(inst, rem, i2, j2) && (i1 != i2 || j1 != j2) implies (
    rem[j1].project@ != rem[j2].project@ || inst[i1].name@ != inst[i2].name@) by {
        assert(done(i1, j1, i, j));
        assert(done(i2, j2, i, j));
    }
}

proof fn lemma_row_end(
    inst: Seq<InstalledPackage>,
    rem: Seq<RemotePackage>,
    es: Seq<JoinedEntry>,
    src: Seq<(int, int)>,
    i: int,
)
    requires
        covers(inst, rem, es, src, i, rem.len() as int),
        no_dup_upto(inst, rem, i, rem.len() as int),
    ensures
        covers(inst, rem, es, src, i + 1, 0),
        no_dup_upto(inst, rem, i + 1, 0),
{
    let n = rem.len() as int;
    assert forall|k: int| #![trigger src[k]] 0 <= k < src.len() implies done(src[k].0, src[k].1, i + 1, 0) by {
        assert(done(src[k].0, src[k].1, i, n));
    }
    assert forall|i2: int, j2: int|
        #![trigger joins(inst, rem, i2, j2)]
        done(i2, j2, i + 1, 0) && joins(inst, rem, i2, j2) implies exists|k: int|
            0 <= k < src.len() && src[k] == (i2, j2) by {
        assert(done(i2, j2, i, n));
    }
    assert forall|i1: int, j1: int, i2: int, j2: int|
        done(i1, j1, i + 1, 0) && done(i2, j2, i + 1, 0) && #[trigger] joins(inst, rem, i1, j1)
            && #[trigger] joins(inst, rem, i2, j2) && (i1 != i2 || j1 != j2) implies (
    rem[j1].project@ != rem[j2].project@ || inst[i1].name@ != inst[i2].name@) by {
        assert(done(i1, j1, i, n));
        assert(done(i2, j2, i, n));
    }
}

/// Joins the installed packages with the remote records of the same name,
/// one entry per pair. Fails with `DuplicatePackage` where two pairs give
/// the same project and local name; else returns the entries and the names
/// of the installed packages that no remote record has, in order.
pub fn reconcile(inst: &Vec<InstalledPackage>, rem: &Vec<RemotePackage>) -> (r: Result<
    (Vec<JoinedEntry>, Vec<String>),
    OldeError,
>)
    ensures
        match r {
            Ok((es, missing)) => {
                &&& !has_duplicate_key(inst@, rem@)
                &&& entry_set(es@) == joined_set(inst@, rem@)
                &&& distinct_keys(es@)
                &&& names_view(missing@) == missing_of(inst@, rem@)
            },
            Err(OldeError::DuplicatePackage(n)) => {
                &&& has_duplicate_key(inst@, rem@)
                &&& duplicate_name(inst@, rem@, n@)
            },
            Err(_) => false,
        },
{
    let mut es: Vec<JoinedEntry> = Vec::new();
    let mut missing: Vec<String> = Vec::new();
    let ghost mut src: Seq<(int, int)> = Seq::empty();
    let mut i: usize = 0;
    while i < inst.len()
        invariant
            i <= inst@.len(),
            covers(inst@, rem@, es@, src, i as int, 0),
            no_dup_upto(inst@, rem@, i as int, 0),
            distinct_keys(es@),
            names_view(missing@) == missing_of(inst@.take(i as int), rem@),
        decreases inst@.len() - i,
    {
        let p = &inst[i];
        let mut found = false;
        let mut j: usize = 0;
        while j < rem.len()
            invariant
                i < inst@.len(),
                *p == inst@[i as int],
                j <= rem@.len(),
                covers(inst@, rem@, es@, src, i as int, j as int),
                no_dup_upto(inst@, rem@, i as int, j as int),
                distinct_keys(es@),
                found == exists|j2: int| 0 <= j2 < j && rem@[j2].name@ == p.name@,
            decreases rem@.len() - j,
        {
            let q = &rem[j];
            if q.name == p.name {
                if has_key(&es, &q.project, &p.name) {
                    proof {
                        let k = choose|k: int|
                            0 <= k < es@.len() && es@[k].project@ == q.project@
                                && es@[k].local_name@ == p.name@;
                        assert(src[k] == src[k]);
                        assert(joins(inst@, rem@, i as int, j as int));
                        assert(has_duplicate_key(inst@, rem@));
                        assert(duplicate_name(inst@, rem@, p.name@));
                    }
                    return Err(OldeError::DuplicatePackage(p.name.clone()));
                }
                let ghost old_es = es@;
                es.push(
                    JoinedEntry {
                        project: q.project.clone(),
                        local_name: p.name.clone(),
                        latest: clone_opt(&q.latest),
                        installed: p.version.clone(),
                    },
                );
                proof {
                    lemma_step_join(inst@, rem@, old_es, es@, src, i as int, j as int);
                    src = src.push((i as int, j as int));
                }
                found = true;
            } else {
                proof {
                    lemma_step_skip(inst@, rem@, es@, src, i as int, j as int);
                }
            }
            j = j + 1;
        }
        proof {
            lemma_row_end(inst@, rem@, es@, src, i as int);
        }
        let ghost old_missing = missing@;
        if !found {
            missing.push(p.name.clone());
        }
        proof {
            let t = inst@.take(i + 1);
            assert(t.drop_last() =~= inst@.take(i as int));
            assert(t.last() == inst@[i as int]);
            if found {
                let j2 = choose|j2: int| 0 <= j2 < rem@.len() && rem@[j2].name@ == p.name@;
                assert(!is_missing(inst@[i as int], rem@));
            } else {
                assert(is_missing(inst@[i as int], rem@));
            }
            assert(names_view(missing@) =~= missing_of(t, rem@));
        }
        i = i + 1;
    }
    proof {
        assert(inst@.take(inst@.len() as int) =~= inst@);
        assert(entry_set(es@) =~= joined_set(inst@, rem@)) by {
            assert forall|x| entry_set(es@).contains(x) implies joined_set(inst@, rem@).contains(x) by {
                let k = choose|k: int| 0 <= k < es@.len() && es@[k]@ == x;
                assert(src[k] == src[k]);
            }
            assert forall|x| joined_set(inst@, rem@).contains(x) implies entry_set(es@).contains(x) by {
                let (i2, j2) = choose|i2: int, j2: int| joins(inst@, rem@, i2, j2) && entry_of(inst@, rem@, i2, j2) == x;
                assert(done(i2, j2, i as int, 0));
                let k = choose|k: int| 0 <= k < src.len() && src[k] == (i2, j2);
                assert(es@[k]@ == x);
            }
        }
        assert(!has_duplicate_key(inst@, rem@)) by {
            assert forall|i1: int, j1: int, i2: int, j2: int|
                #[trigger] joins(inst@, rem@, i1, j1) && #[trigger] joins(inst@, rem@, i2, j2) && (i1 != i2 || j1 != j2)
                implies (rem@[j1].project@ != rem@[j2].project@ || inst@[i1].name@ != inst@[i2].name@) by {
                assert(done(i1, j1, i as int, 0));
                assert(done(i2, j2, i as int, 0));
            }
        }
    }
    Ok((es, missing))
}


/// The missing list holds a name exactly where an installed package of
/// that name is missing.
pub proof fn lemma_missing_of(inst: Seq<InstalledPackage>, rem: Seq<RemotePackage>, n: Seq<char>)
    ensures
        missing_of(inst, rem).contains(n) <==> exists|i: int|
            0 <= i < inst.len() && inst[i].name@ == n && is_missing(inst[i], rem),
    decreases inst.len(),
{
    if inst.len() > 0 {
        let d = inst.drop_last();
        lemma_missing_of(d, rem, n);
        let m = missing_of(d, rem);
        if missing_of(inst, rem).contains(n) {
            if m.contains(n) {
                let i = choose|i: int| 0 <= i < d.len() && d[i].name@ == n && is_missing(d[i], rem);
                assert(inst[i] == d[i]);
            } else {
                let k = choose|k: int| 0 <= k < missing_of(inst, rem).len() && missing_of(inst, rem)[k] == n;
                assert(is_missing(inst.last(), rem));
                assert(k == m.len());
                assert(inst[inst.len() - 1] == inst.last());
            }
        }
        if exists|i: int| 0 <= i < inst.len() && inst[i].name@ == n && is_missing(inst[i], rem) {
            let i = choose|i: int| 0 <= i < inst.len() && inst[i].name@ == n && is_missing(inst[i], rem);
            if i < d.len() {
                assert(d[i] == inst[i]);
                let k = choose|k: int| 0 <= k < m.len() && m[k] == n;
                if is_missing(inst.last(), rem) {
                    assert(missing_of(inst, rem)[k] == n);
                }
            } else {
                assert(missing_of(inst, rem)[m.len() as int] == n);
            }
        }
    }
}

/// Whether installed package `i` has an entry in the join.
pub open spec fn is_joined(inst: Seq<InstalledPackage>, rem: Seq<RemotePackage>, i: int) -> bool {
    exists|x: <JoinedEntry as View>::V|
        joined_set(inst, rem).contains(x) && x.1 == inst[i].name@ && x.3 == inst[i].version@
}

/// Reconciliation is total: each installed package either has an entry in
/// the join or has its name in the missing list, and never both.
pub proof fn lemma_reconcile_total(inst: Seq<InstalledPackage>, rem: Seq<RemotePackage>, i: int)
    requires
        0 <= i < inst.len(),
    ensures
        is_joined(inst, rem, i) != missing_of(inst, rem).contains(inst[i].name@),
{
    lemma_missing_of(inst, rem, inst[i].name@);
    if is_missing(inst[i], rem) {
        if is_joined(inst, rem, i) {
            let x = choose|x: <JoinedEntry as View>::V|
                joined_set(inst, rem).contains(x) && x.1 == inst[i].name@ && x.3 == inst[i].version@;
            let (i2, j2) = choose|i2: int, j2: int|
                joins(inst, rem, i2, j2) && entry_of(inst, rem, i2, j2) == x;
            assert(rem[j2].name@ == inst[i].name@);
        }
    } else {
        let j = choose|j: int| 0 <= j < rem.len() && inst[i].name@ == #[trigger] rem[j].name@;
        assert(joins(inst, rem, i, j));
        assert(joined_set(inst, rem).contains(entry_of(inst, rem, i, j)));
        assert forall|i2: int| 0 <= i2 < inst.len() && inst[i2].name@ == inst[i].name@ implies !is_missing(
            inst[i2],
            rem,
        ) by {
            assert(rem[j].name@ == inst[i2].name@);
        }
    }
}


/// Two installed versions of one name that both join one remote record
/// make two entries with the same key, which the join refuses.
pub proof fn lemma_duplicate_detected(
    inst: Seq<InstalledPackage>,
    rem: Seq<RemotePackage>,
    i1: int,
    i2: int,
    j: int,
)
    requires
        joins(inst, rem, i1, j),
        joins(inst, rem, i2, j),
        i1 != i2,
    ensures
        has_duplicate_key(inst, rem),
{
}

} // verus!
