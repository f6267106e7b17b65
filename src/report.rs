//! Classification of the joined entries and the report built from them.
use vstd::prelude::*;

use crate::error::OldeError;
use crate::installed::InstalledPackage;
use crate::reconcile::{
    distinct_keys, duplicate_name, entry_set, has_duplicate_key, joined_set, missing_of, names_view, reconcile,
    JoinedEntry,
};
use crate::remote::{lex_lt, opt_view, str_lt, RemotePackage};
use crate::version::{comparable, runs_fit, vercomp_at_least, version_ge};

verus! {

/// Where a joined entry stands.
pub enum Outcome {
    /// The installed version is older than the latest one.
    Outdated,
    /// The installed version is at least the latest one.
    UpToDate,
    /// The service knows no latest version.
    NoLatest,
}

/// The outcome of an installed version against a latest one.
pub open spec fn outcome_of(installed: Seq<char>, latest: Option<Seq<char>>) -> Outcome {
    match latest {
        None => Outcome::NoLatest,
        Some(l) => if version_ge(installed, l) {
            Outcome::UpToDate
        } else {
            Outcome::Outdated
        },
    }
}

/// The versions of an entry can be compared.
pub open spec fn entry_comparable(e: <JoinedEntry as View>::V) -> bool {
    e.2 is Some ==> runs_fit(e.3) && runs_fit(e.2->0)
}

/// Classifies an installed version against the latest one: no latest
/// known, up to date where the installed one is at least the latest, else
/// outdated.
pub fn classify(installed: &String, latest: &Option<String>) -> (r: Outcome)
    requires
        latest is Some ==> runs_fit(installed@) && runs_fit(latest->0@),
    ensures
        r == outcome_of(installed@, opt_view(*latest)),
{
    match latest {
        None => Outcome::NoLatest,
        Some(l) => if vercomp_at_least(installed.as_str(), l.as_str()) {
            Outcome::UpToDate
        } else {
            Outcome::Outdated
        },
    }
}

/// The entries of a set with the given outcome.
pub open spec fn with_outcome(s: Set<<JoinedEntry as View>::V>, o: Outcome) -> Set<
    <JoinedEntry as View>::V,
> {
    s.filter(|x: <JoinedEntry as View>::V| outcome_of(x.3, x.2) == o)
}

/// Names in order, each no greater than the next.
pub open spec fn sorted_names(v: Seq<Seq<char>>) -> bool {
    forall|a: int, b: int| 0 <= a < b < v.len() ==> !lex_lt(v[b], v[a])
}

/// Relies on `slice::sort` for strings: the result is a permutation of the
/// input in the order of `Ord` for `String`, which compares the UTF-8 bytes
/// lexicographically, the same order as that of the characters.
#[verifier::external_body]
fn sort_names(v: &mut Vec<String>)
    ensures
        names_view(final(v)@).to_multiset() == names_view(old(v)@).to_multiset(),
        sorted_names(names_view(final(v)@)),
{
    v.sort();
}

/// The classified result of a reconciliation.
pub struct Report {
    /// Entries whose installed version is older than the latest, by
    /// project and local name.
    pub outdated: Vec<JoinedEntry>,
    /// Entries for which the service knows no latest version, by project
    /// and local name.
    pub no_latest: Vec<JoinedEntry>,
    /// Names of installed packages the service does not know, sorted.
    pub missing: Vec<String>,
    /// How many packages are installed.
    pub installed_count: usize,
    /// How many entries the join made.
    pub joined_count: usize,
}

/// Inserting an entry adds its view to the entries that a sequence holds.
proof fn lemma_insert_entry(v: Seq<JoinedEntry>, p: int, w: JoinedEntry)
    requires
        0 <= p <= v.len(),
    ensures
        entry_set(v.insert(p, w)) == entry_set(v).insert(w@),
{
    let u = v.insert(p, w);
    assert forall|x| entry_set(u).contains(x) implies entry_set(v).insert(w@).contains(x) by {
        let k = choose|k: int| 0 <= k < u.len() && u[k]@ == x;
        if k < p {
            assert(u[k] == v[k]);
        } else if k > p {
            assert(u[k] == v[k - 1]);
        }
    }
    assert forall|x| entry_set(v).insert(w@).contains(x) implies entry_set(u).contains(x) by {
        if x == w@ {
            assert(u[p] == w);
        } else {
            let k = choose|k: int| 0 <= k < v.len() && v[k]@ == x;
            if k < p {
                assert(u[k] == v[k]);
            } else {
                assert(u[k + 1] == v[k]);
            }
        }
    }
    assert(entry_set(u) =~= entry_set(v).insert(w@));
}

/// No entry of `v` has the project and local name of `w`.
pub open spec fn key_fresh(v: Seq<JoinedEntry>, w: <JoinedEntry as View>::V) -> bool {
    forall|k: int| 0 <= k < v.len() ==> (v[k]@.0 != w.0 || v[k]@.1 != w.1)
}

/// Entries drawn from the first `i` of a sequence without repeated keys
/// do not hold the key of its `i`-th entry.
proof fn lemma_fresh_from_prefix(all: Seq<JoinedEntry>, i: int, v: Seq<JoinedEntry>)
    requires
        distinct_keys(all),
        0 <= i < all.len(),
        entry_set(v).subset_of(entry_set(all.take(i))),
    ensures
        key_fresh(v, all[i]@),
{
    assert forall|k: int| 0 <= k < v.len() implies (v[k]@.0 != all[i]@.0 || v[k]@.1 != all[i]@.1) by {
        assert(entry_set(v).contains(v[k]@));
        let m = choose|m: int| 0 <= m < all.take(i).len() && all.take(i)[m]@ == v[k]@;
        assert(all.take(i)[m] == all[m]);
    }
}

/// Inserting an entry with a fresh key keeps the keys distinct.
proof fn lemma_insert_distinct(v: Seq<JoinedEntry>, p: int, w: JoinedEntry)
    requires
        distinct_keys(v),
        key_fresh(v, w@),
        0 <= p <= v.len(),
    ensures
        distinct_keys(v.insert(p, w)),
{
    let u = v.insert(p, w);
    assert forall|a: int, b: int| 0 <= a < b < u.len() implies (u[a].project@ != u[b].project@
        || u[a].local_name@ != u[b].local_name@) by {
        if a < p && b < p {
            assert(u[a] == v[a] && u[b] == v[b]);
        } else if a < p && b == p {
            assert(u[a] == v[a]);
        } else if a < p {
            assert(u[a] == v[a] && u[b] == v[b - 1]);
        } else if a == p {
            assert(u[b] == v[b - 1]);
        } else {
            assert(u[a] == v[a - 1] && u[b] == v[b - 1]);
        }
    }
}

/// Splits entries by outcome: the outdated ones and those with no latest
/// version, dropping the up-to-date ones.
pub fn classify_entries(es: &Vec<JoinedEntry>) -> (r: (Vec<JoinedEntry>, Vec<JoinedEntry>))
    requires
        forall|k: int| 0 <= k < es@.len() ==> entry_comparable(#[trigger] es@[k]@),
        distinct_keys(es@),
    ensures
        entry_set(r.0@) == with_outcome(entry_set(es@), Outcome::Outdated),
        entry_set(r.1@) == with_outcome(entry_set(es@), Outcome::NoLatest),
        distinct_keys(r.0@),
        distinct_keys(r.1@),
{
    let mut outdated: Vec<JoinedEntry> = Vec::new();
    let mut no_latest: Vec<JoinedEntry> = Vec::new();
    let mut k: usize = 0;
    while k < es.len()
        invariant
            k <= es@.len(),
            forall|k2: int| 0 <= k2 < es@.len() ==> entry_comparable(#[trigger] es@[k2]@),
            entry_set(outdated@) == with_outcome(entry_set(es@.take(k as int)), Outcome::Outdated),
            entry_set(no_latest@) == with_outcome(entry_set(es@.take(k as int)), Outcome::NoLatest),
            distinct_keys(es@),
            distinct_keys(outdated@),
            distinct_keys(no_latest@),
        decreases es@.len() - k,
    {
        let e = &es[k];
        proof {
            assert(entry_comparable(es@[k as int]@));
            if e.latest is Some {
                assert(opt_view(e.latest) == Some(e.latest->0@));
            }
        }
        let o = classify(&e.installed, &e.latest);
        let ghost t0 = es@.take(k as int);
        let ghost t1 = es@.take(k + 1);
        let ghost oo = outdated@;
        let ghost on = no_latest@;
        let c = JoinedEntry {
            project: e.project.clone(),
            local_name: e.local_name.clone(),
            latest: crate::remote::clone_opt(&e.latest),
            installed: e.installed.clone(),
        };
        proof {
            assert(c@ == e@);
            assert(t1 =~= t0.insert(k as int, *e));
            lemma_insert_entry(t0, k as int, *e);
            assert(entry_set(oo).subset_of(entry_set(t0)));
            assert(entry_set(on).subset_of(entry_set(t0)));
            lemma_fresh_from_prefix(es@, k as int, oo);
            lemma_fresh_from_prefix(es@, k as int, on);
        }
        match o {
            Outcome::Outdated => {
                outdated.push(c);
            },
            Outcome::NoLatest => {
                no_latest.push(c);
            },
            Outcome::UpToDate => {},
        }
        proof {
            lemma_insert_entry(oo, oo.len() as int, c);
            lemma_insert_entry(on, on.len() as int, c);
            lemma_insert_distinct(oo, oo.len() as int, c);
            lemma_insert_distinct(on, on.len() as int, c);
            assert(oo.insert(oo.len() as int, c) =~= oo.push(c));
            assert(on.insert(on.len() as int, c) =~= on.push(c));
            assert(entry_set(outdated@) =~= with_outcome(entry_set(t1), Outcome::Outdated));
            assert(entry_set(no_latest@) =~= with_outcome(entry_set(t1), Outcome::NoLatest));
        }
        k = k + 1;
    }
    assert(es@.take(es@.len() as int) =~= es@);
    (outdated, no_latest)
}


/// A sequence without repeated keys has as many distinct entries as items.
proof fn lemma_entry_count(es: Seq<JoinedEntry>)
    requires
        distinct_keys(es),
    ensures
        entry_set(es).len() == es.len(),
{
    let m = es.map_values(|e: JoinedEntry| e@);
    assert(m.no_duplicates()) by {
        assert forall|a: int, b: int| 0 <= a < m.len() && 0 <= b < m.len() && a != b implies m[a] != m[b] by {
            if a < b {
                assert(es[a].project@ != es[b].project@ || es[a].local_name@ != es[b].local_name@);
            } else {
                assert(es[b].project@ != es[a].project@ || es[b].local_name@ != es[a].local_name@);
            }
        }
    }
    m.unique_seq_to_set();
    assert(entry_set(es) =~= m.to_set()) by {
        assert forall|x| entry_set(es).contains(x) implies m.to_set().contains(x) by {
            let k = choose|k: int| 0 <= k < es.len() && es[k]@ == x;
            assert(m[k] == x);
        }
        assert forall|x| m.to_set().contains(x) implies entry_set(es).contains(x) by {
            let k = choose|k: int| 0 <= k < m.len() && m[k] == x;
            assert(es[k]@ == x);
        }
    }
}

/// Finds an entry whose versions cannot be compared.
fn first_incomparable(es: &Vec<JoinedEntry>) -> (r: Option<String>)
    ensures
        r is None <==> forall|k: int| 0 <= k < es@.len() ==> entry_comparable(#[trigger] es@[k]@),
        r is Some ==> exists|k: int|
            0 <= k < es@.len() && !entry_comparable(#[trigger] es@[k]@) && (r->0@ == es@[k].installed@
                || Some(r->0@) == opt_view(es@[k].latest)),
{
    let mut k: usize = 0;
    while k < es.len()
        invariant
            k <= es@.len(),
            forall|k2: int| 0 <= k2 < k ==> entry_comparable(#[trigger] es@[k2]@),
        decreases es@.len() - k,
    {
        let e = &es[k];
        match &e.latest {
            Some(l) => {
                assert(opt_view(e.latest) == Some(l@));
                if !comparable(e.installed.as_str()) {
                    assert(!entry_comparable(es@[k as int]@));
                    return Some(e.installed.clone());
                }
                if !comparable(l.as_str()) {
                    return Some(l.clone());
                }
            },
            None => {},
        }
        k = k + 1;
    }
    None
}

/// Reconciles the two inventories and classifies the joined entries. Fails
/// as `reconcile` does on duplicate keys, and with `BadVersion` where an
/// entry with a latest version has a version whose numeric parts are too
/// large to compare.
pub fn build_report(inst: &Vec<InstalledPackage>, rem: &Vec<RemotePackage>) -> (r: Result<
    Report,
    OldeError,
>)
    ensures
        match r {
            Ok(rep) => {
                &&& !has_duplicate_key(inst@, rem@)
                &&& forall|x| joined_set(inst@, rem@).contains(x) ==> entry_comparable(x)
                &&& entry_set(rep.outdated@) == with_outcome(joined_set(inst@, rem@), Outcome::Outdated)
                &&& entry_set(rep.no_latest@) == with_outcome(joined_set(inst@, rem@), Outcome::NoLatest)
                &&& sorted_entries(rep.outdated@)
                &&& sorted_entries(rep.no_latest@)
                &&& distinct_keys(rep.outdated@)
                &&& distinct_keys(rep.no_latest@)
                &&& names_view(rep.missing@).to_multiset() == missing_of(inst@, rem@).to_multiset()
                &&& sorted_names(names_view(rep.missing@))
                &&& rep.installed_count == inst@.len()
                &&& rep.joined_count == joined_set(inst@, rem@).len()
            },
            Err(OldeError::DuplicatePackage(n)) => duplicate_name(inst@, rem@, n@),
            Err(OldeError::BadVersion(_)) => {
                &&& !has_duplicate_key(inst@, rem@)
                &&& exists|x| joined_set(inst@, rem@).contains(x) && !entry_comparable(x)
            },
            Err(_) => false,
        },
{
    let (es, mut missing) = match reconcile(inst, rem) {
        Ok(pair) => pair,
        Err(e) => {
            return Err(e);
        },
    };
    match first_incomparable(&es) {
        Some(v) => {
            proof {
                let k = choose|k: int| 0 <= k < es@.len() && !entry_comparable(#[trigger] es@[k]@);
                assert(entry_set(es@).contains(es@[k]@));
            }
            return Err(OldeError::BadVersion(v));
        },
        None => {},
    }
    proof {
        assert forall|x| joined_set(inst@, rem@).contains(x) implies entry_comparable(x) by {
            assert(entry_set(es@).contains(x));
            let k = choose|k: int| 0 <= k < es@.len() && es@[k]@ == x;
            assert(entry_comparable(es@[k]@));
        }
        lemma_entry_count(es@);
    }
    let (outdated, no_latest) = classify_entries(&es);
    sort_names(&mut missing);
    Ok(Report {
        outdated: sort_entries(outdated),
        no_latest: sort_entries(no_latest),
        missing,
        installed_count: inst.len(),
        joined_count: es.len(),
    })
}


/// No string comes before itself.
pub proof fn lemma_lex_irreflexive(a: Seq<char>)
    ensures
        !lex_lt(a, a),
    decreases a.len(),
{
    if a.len() > 0 {
        lemma_lex_irreflexive(a.drop_first());
    }
}

/// The order of strings is transitive.
pub proof fn lemma_lex_transitive(a: Seq<char>, b: Seq<char>, c: Seq<char>)
    requires
        lex_lt(a, b),
        lex_lt(b, c),
    ensures
        lex_lt(a, c),
    decreases a.len(),
{
    if a.len() > 0 && a[0] == b[0] && b[0] == c[0] {
        lemma_lex_transitive(a.drop_first(), b.drop_first(), c.drop_first());
    }
}

/// Entries ordered by project, then by local name.
pub open spec fn key_lt(a: <JoinedEntry as View>::V, b: <JoinedEntry as View>::V) -> bool {
    lex_lt(a.0, b.0) || (a.0 == b.0 && lex_lt(a.1, b.1))
}

/// Entries in order of project and local name, none before one it follows.
pub open spec fn sorted_entries(es: Seq<JoinedEntry>) -> bool {
    forall|a: int, b: int| 0 <= a < b < es.len() ==> !key_lt(es[b]@, es[a]@)
}

proof fn lemma_key_transitive(
    a: <JoinedEntry as View>::V,
    b: <JoinedEntry as View>::V,
    c: <JoinedEntry as View>::V,
)
    requires
        key_lt(a, b),
        key_lt(b, c),
    ensures
        key_lt(a, c),
{
    if lex_lt(a.0, b.0) && lex_lt(b.0, c.0) {
        lemma_lex_transitive(a.0, b.0, c.0);
    } else if lex_lt(a.1, b.1) && lex_lt(b.1, c.1) {
        lemma_lex_transitive(a.1, b.1, c.1);
    }
}

/// Whether entry `a` comes before entry `b`.
fn entry_before(a: &JoinedEntry, b: &JoinedEntry) -> (r: bool)
    ensures
        r == key_lt(a@, b@),
{
    str_lt(&a.project, &b.project) || (a.project == b.project && str_lt(&a.local_name, &b.local_name))
}

/// Orders entries by project, then by local name.
pub fn sort_entries(es: Vec<JoinedEntry>) -> (r: Vec<JoinedEntry>)
    requires
        distinct_keys(es@),
    ensures
        entry_set(r@) == entry_set(es@),
        sorted_entries(r@),
        distinct_keys(r@),
        r@.len() == es@.len(),
{
    let mut out: Vec<JoinedEntry> = Vec::new();
    let mut rest = es;
    let ghost all = rest@;
    let mut i: usize = 0;
    assert(entry_set(out@) =~= entry_set(all.take(0)));
    while i < rest.len()
        invariant
            rest@ == all,
            i <= all.len(),
            distinct_keys(all),
            out@.len() == i,
            entry_set(out@) == entry_set(all.take(i as int)),
            sorted_entries(out@),
            distinct_keys(out@),
        decreases all.len() - i,
    {
        let e = &rest[i];
        let mut p: usize = 0;
        while p < out.len() && !entry_before(e, &out[p])
            invariant
                p <= out@.len(),
                forall|k: int| 0 <= k < p ==> !key_lt(e@, out@[k]@),
            decreases out@.len() - p,
        {
            p = p + 1;
        }
        let c = JoinedEntry {
            project: e.project.clone(),
            local_name: e.local_name.clone(),
            latest: crate::remote::clone_opt(&e.latest),
            installed: e.installed.clone(),
        };
        let ghost before = out@;
        proof {
            assert(c@ == e@);
            assert(all[i as int] == *e);
            lemma_fresh_from_prefix(all, i as int, before);
            lemma_insert_distinct(before, p as int, c);
            if p < before.len() {
                assert(key_lt(e@, before[p as int]@));
                assert forall|k: int| p <= k < before.len() implies !key_lt(before[k]@, e@) by {
                    if key_lt(before[k]@, e@) {
                        lemma_key_transitive(before[k]@, e@, before[p as int]@);
                        lemma_lex_irreflexive(before[p as int]@.0);
                        lemma_lex_irreflexive(before[p as int]@.1);
                    }
                }
            }
        }
        out.insert(p, c);
        proof {
            assert(out@ == before.insert(p as int, c));
            assert forall|a: int, b: int| 0 <= a < b < out@.len() implies !key_lt(out@[b]@, out@[a]@) by {
                if a < p && b < p {
                    assert(out@[a] == before[a] && out@[b] == before[b]);
                } else if a < p && b == p {
                    assert(out@[a] == before[a]);
                } else if a < p {
                    assert(out@[a] == before[a] && out@[b] == before[b - 1]);
                } else if a == p {
                    assert(out@[b] == before[b - 1]);
                } else {
                    assert(out@[a] == before[a - 1] && out@[b] == before[b - 1]);
                }
            }
            let t0 = all.take(i as int);
            let t1 = all.take(i + 1);
            assert(t1 =~= t0.insert(i as int, *e));
            lemma_insert_entry(t0, i as int, *e);
            lemma_insert_entry(before, p as int, c);
        }
        i = i + 1;
    }
    assert(all.take(all.len() as int) =~= all);
    out
}

} // verus!
