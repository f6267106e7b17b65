//! The remote inventory: the records of each page, the cursor that pages
//! through the service, and the cooperative cancellation of the collector.
use vstd::prelude::*;

use crate::error::OldeError;
use crate::text::chars_of;
use vstd::string::StringExecFns;

verus! {

/// One repository's record of a project, as a page delivers it.
pub struct RawRecord {
    pub repo: String,
    pub visiblename: Option<String>,
    pub version: Option<String>,
    pub status: Option<String>,
}

/// A project of a page with its records, in the page's order.
pub struct ProjectEntries {
    pub project: String,
    pub records: Vec<RawRecord>,
}

/// A package of the target repository as the service knows it, with the
/// version that the service holds current for its project.
pub struct RemotePackage {
    pub project: String,
    pub name: String,
    pub version: Option<String>,
    pub status: Option<String>,
    pub latest: Option<String>,
}

/// The characters of an optional string.
pub open spec fn opt_view(o: Option<String>) -> Option<Seq<char>> {
    match o {
        Some(s) => Some(s@),
        None => None,
    }
}

impl View for RemotePackage {
    type V = (Seq<char>, Seq<char>, Option<Seq<char>>, Option<Seq<char>>, Option<Seq<char>>);

    open spec fn view(&self) -> Self::V {
        (self.project@, self.name@, opt_view(self.version), opt_view(self.status), opt_view(self.latest))
    }
}

/// Whether a status marks the record that carries the current version.
pub open spec fn marks_latest(st: Option<Seq<char>>) -> bool {
    st == Some("newest"@) || st == Some("unique"@)
}

/// The index of the first record at or after `i` whose status marks the
/// current version, or `rs.len()`.
pub open spec fn first_marked(rs: Seq<RawRecord>, i: int) -> int
    decreases rs.len() - i,
{
    if i >= rs.len() {
        rs.len() as int
    } else if marks_latest(opt_view(rs[i].status)) {
        i
    } else {
        first_marked(rs, i + 1)
    }
}

/// The current version of a project: that of its first record whose status
/// is "newest" or "unique", if there is one.
pub open spec fn latest_of(rs: Seq<RawRecord>) -> Option<Seq<char>> {
    let k = first_marked(rs, 0);
    if 0 <= k < rs.len() {
        opt_view(rs[k].version)
    } else {
        None
    }
}

/// What a record of project `p` contributes: a package where it belongs to
/// the target repository and has a visible name.
pub open spec fn record_package(
    p: Seq<char>,
    r: RawRecord,
    repo: Seq<char>,
    latest: Option<Seq<char>>,
) -> Option<<RemotePackage as View>::V> {
    if r.repo@ == repo && r.visiblename is Some {
        Some((p, r.visiblename->0@, opt_view(r.version), opt_view(r.status), latest))
    } else {
        None
    }
}

/// The packages of a project's records.
pub open spec fn entry_packages(e: ProjectEntries, repo: Seq<char>) -> Set<<RemotePackage as View>::V> {
    Set::new(
        |x: <RemotePackage as View>::V|
            exists|i: int|
                0 <= i < e.records@.len() && record_package(
                    e.project@,
                    e.records@[i],
                    repo,
                    latest_of(e.records@),
                ) == Some(x),
    )
}

/// The packages of a page.
pub open spec fn page_packages(page: Seq<ProjectEntries>, repo: Seq<char>) -> Set<<RemotePackage as View>::V> {
    Set::new(
        |x: <RemotePackage as View>::V|
            exists|j: int| 0 <= j < page.len() && entry_packages(page[j], repo).contains(x),
    )
}

/// Strict lexicographic order of strings, character by character.
pub open spec fn lex_lt(a: Seq<char>, b: Seq<char>) -> bool
    decreases a.len(),
{
    if a.len() == 0 {
        b.len() > 0
    } else if b.len() == 0 {
        false
    } else if a[0] != b[0] {
        a[0] < b[0]
    } else {
        lex_lt(a.drop_first(), b.drop_first())
    }
}

/// The lexicographically last project name of a page.
pub open spec fn page_max(page: Seq<ProjectEntries>) -> Option<Seq<char>>
    decreases page.len(),
{
    if page.len() == 0 {
        None
    } else {
        let k = page.last().project@;
        match page_max(page.drop_last()) {
            None => Some(k),
            Some(m) => if lex_lt(m, k) {
                Some(k)
            } else {
                Some(m)
            },
        }
    }
}

/// The cursor after `page`: its last project name and a slash, or the same
/// cursor where the page is empty.
pub open spec fn next_cursor(cursor: Seq<char>, page: Seq<ProjectEntries>) -> Seq<char> {
    match page_max(page) {
        None => cursor,
        Some(m) => m + seq!['/'],
    }
}

/// Whether `a` comes before `b`, character by character.
pub fn str_lt(a: &String, b: &String) -> (r: bool)
    ensures
        r == lex_lt(a@, b@),
{
    let x = chars_of(a.as_str());
    let y = chars_of(b.as_str());
    let mut i: usize = 0;
    assert(a@.skip(0) =~= a@);
    assert(b@.skip(0) =~= b@);
    while i < x.len() && i < y.len() && x[i] == y[i]
        invariant
            i <= x@.len(),
            i <= y@.len(),
            x@ == a@,
            y@ == b@,
            lex_lt(a@, b@) == lex_lt(a@.skip(i as int), b@.skip(i as int)),
        decreases x@.len() - i,
    {
        assert(a@.skip(i as int).drop_first() =~= a@.skip(i + 1));
        assert(b@.skip(i as int).drop_first() =~= b@.skip(i + 1));
        i = i + 1;
    }
    if i >= x.len() {
        i < y.len()
    } else if i >= y.len() {
        false
    } else {
        x[i] < y[i]
    }
}


/// The packages that a sequence of records holds.
pub open spec fn record_set(rs: Seq<RemotePackage>) -> Set<<RemotePackage as View>::V> {
    Set::new(|x: <RemotePackage as View>::V| exists|i: int| 0 <= i < rs.len() && rs[i]@ == x)
}

/// No record occurs twice.
pub open spec fn distinct_records(rs: Seq<RemotePackage>) -> bool {
    forall|i: int, j: int| 0 <= i < j < rs.len() ==> rs[i]@ != rs[j]@
}

/// A copy of an optional string.
pub fn clone_opt(o: &Option<String>) -> (r: Option<String>)
    ensures
        opt_view(r) == opt_view(*o),
{
    match o {
        Some(s) => Some(s.clone()),
        None => None,
    }
}

/// Whether two optional strings are equal.
pub fn opt_eq(a: &Option<String>, b: &Option<String>) -> (r: bool)
    ensures
        r == (opt_view(*a) == opt_view(*b)),
{
    match (a, b) {
        (Some(x), Some(y)) => *x == *y,
        (None, None) => true,
        _ => false,
    }
}

fn same_record(a: &RemotePackage, b: &RemotePackage) -> (r: bool)
    ensures
        r == (a@ == b@),
{
    a.project == b.project && a.name == b.name && opt_eq(&a.version, &b.version) && opt_eq(
        &a.status,
        &b.status,
    ) && opt_eq(&a.latest, &b.latest)
}

/// Adds `p` to `rs` unless a record equal to it is there.
fn insert_record(rs: &mut Vec<RemotePackage>, p: RemotePackage)
    requires
        distinct_records(old(rs)@),
    ensures
        distinct_records(final(rs)@),
        record_set(final(rs)@) == record_set(old(rs)@).insert(p@),
{
    let mut i: usize = 0;
    let mut found = false;
    while i < rs.len() && !found
        invariant
            i <= rs@.len(),
            found ==> i > 0 && rs@[i - 1]@ == p@,
            !found ==> forall|k: int| 0 <= k < i ==> rs@[k]@ != p@,
        decreases rs@.len() - i,
    {
        found = same_record(&rs[i], &p);
        i = i + 1;
    }
    if found {
        assert(record_set(rs@).contains(p@));
        assert(record_set(rs@).insert(p@) =~= record_set(rs@));
    } else {
        let ghost before = rs@;
        rs.push(p);
        assert(record_set(rs@) =~= record_set(before).insert(p@)) by {
            assert(rs@[before.len() as int]@ == p@);
            assert forall|x| record_set(before).contains(x) implies record_set(rs@).contains(x) by {
                let k = choose|k: int| 0 <= k < before.len() && before[k]@ == x;
                assert(rs@[k]@ == x);
            }
        }
    }
}

/// Whether the status is "newest" or "unique".
fn is_marked(st: &Option<String>) -> (r: bool)
    ensures
        r == marks_latest(opt_view(*st)),
{
    match st {
        Some(s) => {
            let newest = "newest".to_string();
            let unique = "unique".to_string();
            *s == newest || *s == unique
        },
        None => false,
    }
}

/// The current version of a project (see `latest_of`).
pub fn latest_for(rs: &Vec<RawRecord>) -> (r: Option<String>)
    ensures
        opt_view(r) == latest_of(rs@),
{
    let mut i: usize = 0;
    while i < rs.len() && !is_marked(&rs[i].status)
        invariant
            i <= rs@.len(),
            first_marked(rs@, i as int) == first_marked(rs@, 0),
        decreases rs@.len() - i,
    {
        i = i + 1;
    }
    if i < rs.len() {
        clone_opt(&rs[i].version)
    } else {
        None
    }
}

/// Adds the packages of one project's records to `rs`.
fn absorb_entry(rs: &mut Vec<RemotePackage>, e: &ProjectEntries, repo: &String)
    requires
        distinct_records(old(rs)@),
    ensures
        distinct_records(final(rs)@),
        record_set(final(rs)@) == record_set(old(rs)@).union(entry_packages(*e, repo@)),
{
    let latest = latest_for(&e.records);
    let ghost start = record_set(rs@);
    let ghost lv = latest_of(e.records@);
    let mut i: usize = 0;
    while i < e.records.len()
        invariant
            i <= e.records@.len(),
            opt_view(latest) == lv,
            lv == latest_of(e.records@),
            distinct_records(rs@),
            record_set(rs@) == start.union(
                Set::new(
                    |x: <RemotePackage as View>::V|
                        exists|k: int|
                            0 <= k < i && record_package(e.project@, e.records@[k], repo@, lv)
                                == Some(x),
                ),
            ),
        decreases e.records@.len() - i,
    {
        let r = &e.records[i];
        let ghost before = record_set(rs@);
        if r.repo == *repo {
            match &r.visiblename {
                Some(vn) => {
                    let p = RemotePackage {
                        project: e.project.clone(),
                        name: vn.clone(),
                        version: clone_opt(&r.version),
                        status: clone_opt(&r.status),
                        latest: clone_opt(&latest),
                    };
                    insert_record(rs, p);
                },
                None => {},
            }
        }
        proof {
            let old_part = Set::new(
                |x: <RemotePackage as View>::V|
                    exists|k: int|
                        0 <= k < i && record_package(e.project@, e.records@[k], repo@, lv)
                            == Some(x),
            );
            let new_part = Set::new(
                |x: <RemotePackage as View>::V|
                    exists|k: int|
                        0 <= k < i + 1 && record_package(e.project@, e.records@[k], repo@, lv)
                            == Some(x),
            );
            assert forall|x| new_part.contains(x) implies old_part.contains(x) || record_package(
                e.project@,
                e.records@[i as int],
                repo@,
                lv,
            ) == Some(x) by {
                let k = choose|k: int|
                    0 <= k < i + 1 && record_package(e.project@, e.records@[k], repo@, lv)
                        == Some(x);
                if k < i {
                    assert(old_part.contains(x));
                }
            }
            assert forall|x| old_part.contains(x) implies new_part.contains(x) by {
                let k = choose|k: int|
                    0 <= k < i && record_package(e.project@, e.records@[k], repo@, lv) == Some(
                        x,
                    );
                assert(0 <= k < i + 1);
            }
            match record_package(e.project@, e.records@[i as int], repo@, lv) {
                Some(y) => {
                    assert(new_part.contains(y));
                    assert(record_set(rs@) =~= start.union(new_part));
                },
                None => {
                    assert(record_set(rs@) =~= start.union(new_part));
                },
            }
        }
        i = i + 1;
    }
    assert(record_set(rs@) =~= start.union(entry_packages(*e, repo@)));
}


/// The lexicographically last project name of a page (see `page_max`).
pub fn last_project(page: &Vec<ProjectEntries>) -> (r: Option<String>)
    ensures
        opt_view(r) == page_max(page@),
{
    let mut best: Option<String> = None;
    let mut j: usize = 0;
    while j < page.len()
        invariant
            j <= page@.len(),
            opt_view(best) == page_max(page@.take(j as int)),
        decreases page@.len() - j,
    {
        let k = &page[j].project;
        assert(page@.take(j + 1).drop_last() =~= page@.take(j as int));
        best = match best {
            None => Some(k.clone()),
            Some(m) => if str_lt(&m, k) {
                Some(k.clone())
            } else {
                Some(m)
            },
        };
        j = j + 1;
    }
    assert(page@.take(page@.len() as int) =~= page@);
    best
}

/// The address of the page after `cursor`: all projects of `repo`, or
/// only those that the service holds outdated.
pub open spec fn page_url(
    base: Seq<char>,
    cursor: Seq<char>,
    repo: Seq<char>,
    full_repo: bool,
) -> Seq<char> {
    base + cursor + "?inrepo="@ + repo + if full_repo {
        Seq::empty()
    } else {
        "&outdated=1"@
    }
}

/// Collects the remote inventory page by page. The caller fetches each
/// page that `request` names and hands it to `absorb`, until `request`
/// reports the end; a set cancel flag stops the collection before the
/// next fetch.
pub struct RemoteCollector {
    base: String,
    repo: String,
    full_repo: bool,
    cursor: String,
    records: Vec<RemotePackage>,
    finished: bool,
}

impl RemoteCollector {
    /// The collector's records are distinct.
    pub closed spec fn wf(&self) -> bool {
        distinct_records(self.records@)
    }

    /// The address that page addresses start with.
    pub closed spec fn base_view(&self) -> Seq<char> {
        self.base@
    }

    /// The repository whose records are kept.
    pub closed spec fn repo_view(&self) -> Seq<char> {
        self.repo@
    }

    /// Whether every project of the repository is fetched, not only the outdated ones.
    pub closed spec fn full_view(&self) -> bool {
        self.full_repo
    }

    /// The cursor of the next page.
    pub closed spec fn cursor_view(&self) -> Seq<char> {
        self.cursor@
    }

    /// The packages collected so far.
    pub closed spec fn records_view(&self) -> Set<<RemotePackage as View>::V> {
        record_set(self.records@)
    }

    /// Whether the last page has been taken in.
    pub closed spec fn finished_view(&self) -> bool {
        self.finished
    }

    /// A collector at the first page, with nothing collected.
    pub fn new(base: &str, repo: &str, full_repo: bool) -> (r: RemoteCollector)
        ensures
            r.wf(),
            r.base_view() == base@,
            r.repo_view() == repo@,
            r.full_view() == full_repo,
            r.cursor_view() == Seq::<char>::empty(),
            r.records_view() == Set::<<RemotePackage as View>::V>::empty(),
            !r.finished_view(),
    {
        let r = RemoteCollector {
            base: base.to_string(),
            repo: repo.to_string(),
            full_repo,
            cursor: String::new(),
            records: Vec::new(),
            finished: false,
        };
        assert(record_set(r.records@) =~= Set::empty());
        r
    }

    /// Whether the last page has been taken in.
    pub fn is_finished(&self) -> (r: bool)
        ensures
            r == self.finished_view(),
    {
        self.finished
    }

    /// What to do next: report the end (`Ok(None)`) once the cursor stopped
    /// moving, whatever the cancel flag; else stop with `Canceled` where the
    /// flag is set, before any fetch; else fetch the page at the returned
    /// address.
    pub fn request(&self, cancelled: bool) -> (r: Result<Option<String>, OldeError>)
        ensures
            self.finished_view() ==> r matches Ok(None),
            !self.finished_view() && cancelled ==> r matches Err(OldeError::Canceled(_)),
            !self.finished_view() && !cancelled ==> (r matches Ok(Some(u)) && u@ == page_url(
                self.base_view(),
                self.cursor_view(),
                self.repo_view(),
                self.full_view(),
            )),
    {
        if self.finished {
            return Ok(None);
        }
        if cancelled {
            return Err(OldeError::Canceled("remote fetch".to_string()));
        }
        let mut url = self.base.clone();
        url.append(self.cursor.as_str());
        url.append("?inrepo=");
        url.append(self.repo.as_str());
        if !self.full_repo {
            url.append("&outdated=1");
        }
        proof {
            if self.full_repo {
                assert(url@ =~= page_url(self.base@, self.cursor@, self.repo@, self.full_repo));
            } else {
                assert(url@ =~= page_url(self.base@, self.cursor@, self.repo@, self.full_repo));
            }
        }
        Ok(Some(url))
    }

    /// Takes in a fetched page: its packages join the collected ones, the
    /// cursor moves past its last project, and the collection ends where
    /// the cursor stays where it was.
    pub fn absorb(&mut self, page: &Vec<ProjectEntries>)
        requires
            old(self).wf(),
            !old(self).finished_view(),
        ensures
            final(self).wf(),
            final(self).base_view() == old(self).base_view(),
            final(self).repo_view() == old(self).repo_view(),
            final(self).full_view() == old(self).full_view(),
            final(self).records_view() == old(self).records_view().union(
                page_packages(page@, old(self).repo_view()),
            ),
            final(self).cursor_view() == next_cursor(old(self).cursor_view(), page@),
            final(self).finished_view() == (final(self).cursor_view() == old(
                self,
            ).cursor_view()),
    {
        let ghost start = record_set(self.records@);
        let mut j: usize = 0;
        while j < page.len()
            invariant
                j <= page@.len(),
                self.base@ == old(self).base@,
                self.repo@ == old(self).repo@,
                self.full_repo == old(self).full_repo,
                self.cursor@ == old(self).cursor@,
                distinct_records(self.records@),
                record_set(self.records@) == start.union(page_packages(page@.take(j as int), self.repo@)),
            decreases page@.len() - j,
        {
            absorb_entry(&mut self.records, &page[j], &self.repo);
            proof {
                let a = page_packages(page@.take(j as int), self.repo@);
                let b = page_packages(page@.take(j + 1), self.repo@);
                let e = entry_packages(page@[j as int], self.repo@);
                assert forall|x| b.contains(x) implies a.contains(x) || e.contains(x) by {
                    let k = choose|k: int|
                        0 <= k < j + 1 && #[trigger] entry_packages(page@.take(j + 1)[k], self.repo@).contains(x);
                    if k < j {
                        assert(page@.take(j as int)[k] == page@.take(j + 1)[k]);
                    }
                }
                assert forall|x| a.contains(x) implies b.contains(x) by {
                    let k = choose|k: int|
                        0 <= k < j && #[trigger] entry_packages(page@.take(j as int)[k], self.repo@).contains(x);
                    assert(page@.take(j as int)[k] == page@.take(j + 1)[k]);
                }
                assert forall|x| e.contains(x) implies b.contains(x) by {
                    assert(page@.take(j + 1)[j as int] == page@[j as int]);
                }
                assert(record_set(self.records@) =~= start.union(b));
            }
            j = j + 1;
        }
        assert(page@.take(page@.len() as int) =~= page@);
        let next = match last_project(page) {
            None => self.cursor.clone(),
            Some(m) => {
                let mut c = m;
                c.append("/");
                c
            },
        };
        proof {
            reveal_strlit("/");
            match page_max(page@) {
                None => {},
                Some(m) => {
                    assert(next@ =~= m + seq!['/']);
                },
            }
        }
        self.finished = next == self.cursor;
        self.cursor = next;
    }

    /// The collected packages.
    pub fn into_records(self) -> (r: Vec<RemotePackage>)
        requires
            self.wf(),
        ensures
            distinct_records(r@),
            record_set(r@) == self.records_view(),
    {
        self.records
    }
}


/// The cursor after the first `k` pages, starting from `c`.
pub open spec fn cursor_after(c: Seq<char>, pages: Seq<Seq<ProjectEntries>>, k: nat) -> Seq<char>
    decreases k,
{
    if k == 0 || pages.len() == 0 {
        c
    } else {
        cursor_after(next_cursor(c, pages[0]), pages.drop_first(), (k - 1) as nat)
    }
}

/// How many of `pages` the collector takes from cursor `c` until the
/// cursor stops moving; `None` where it still moves after the last one.
pub open spec fn pages_taken(c: Seq<char>, pages: Seq<Seq<ProjectEntries>>) -> Option<nat>
    decreases pages.len(),
{
    if pages.len() == 0 {
        None
    } else if next_cursor(c, pages[0]) == c {
        Some(1)
    } else {
        match pages_taken(next_cursor(c, pages[0]), pages.drop_first()) {
            Some(n) => Some(n + 1),
            None => None,
        }
    }
}

/// Pagination ends: where the cursor moves on each of the first `n - 1`
/// pages and stays put on the `n`-th (its last project repeats that of the
/// page before), the collection ends after exactly `n` pages.
pub proof fn lemma_pagination_ends(c: Seq<char>, pages: Seq<Seq<ProjectEntries>>, n: nat)
    requires
        1 <= n <= pages.len(),
        forall|k: nat|
            k + 1 < n ==> #[trigger] cursor_after(c, pages, k + 1) != cursor_after(c, pages, k),
        cursor_after(c, pages, n) == cursor_after(c, pages, (n - 1) as nat),
    ensures
        pages_taken(c, pages) == Some(n),
    decreases n,
{
    let c1 = next_cursor(c, pages[0]);
    assert(cursor_after(c, pages, 1) == cursor_after(c1, pages.drop_first(), 0));
    if n == 1 {
        assert(cursor_after(c, pages, 0) == c);
    } else {
        assert(cursor_after(c, pages, 1) != cursor_after(c, pages, 0));
        assert forall|k: nat| k + 1 < n - 1 implies #[trigger] cursor_after(
            c1,
            pages.drop_first(),
            k + 1,
        ) != cursor_after(c1, pages.drop_first(), k) by {
            let k1: nat = k + 1;
            assert(cursor_after(c, pages, k1 + 1) != cursor_after(c, pages, k1));
            assert(cursor_after(c, pages, k1 + 1) == cursor_after(c1, pages.drop_first(), k1));
            assert(cursor_after(c, pages, k1) == cursor_after(c1, pages.drop_first(), k));
        }
        assert(cursor_after(c, pages, n) == cursor_after(c1, pages.drop_first(), (n - 1) as nat));
        assert(cursor_after(c, pages, (n - 1) as nat) == cursor_after(
            c1,
            pages.drop_first(),
            (n - 2) as nat,
        ));
        lemma_pagination_ends(c1, pages.drop_first(), (n - 1) as nat);
    }
}


/// For each record of the target repository without a visible name among
/// `rs`, the project's name: such records are skipped.
pub open spec fn entry_nameless(project: Seq<char>, rs: Seq<RawRecord>, repo: Seq<char>) -> Seq<Seq<char>>
    decreases rs.len(),
{
    if rs.len() == 0 {
        Seq::empty()
    } else {
        let rest = entry_nameless(project, rs.drop_last(), repo);
        if rs.last().repo@ == repo && rs.last().visiblename is None {
            rest.push(project)
        } else {
            rest
        }
    }
}

/// The skipped records of a page, one project name each, in page order.
pub open spec fn page_nameless(page: Seq<ProjectEntries>, repo: Seq<char>) -> Seq<Seq<char>>
    decreases page.len(),
{
    if page.len() == 0 {
        Seq::empty()
    } else {
        page_nameless(page.drop_last(), repo) + entry_nameless(
            page.last().project@,
            page.last().records@,
            repo,
        )
    }
}

/// The records of a page that collection skips, as their projects' names:
/// those of the target repository that have no visible name.
pub fn skipped_records(page: &Vec<ProjectEntries>, repo: &str) -> (r: Vec<String>)
    ensures
        r@.map_values(|s: String| s@) == page_nameless(page@, repo@),
{
    let mut out: Vec<String> = Vec::new();
    let target = repo.to_string();
    let mut j: usize = 0;
    while j < page.len()
        invariant
            j <= page@.len(),
            target@ == repo@,
            out@.map_values(|s: String| s@) == page_nameless(page@.take(j as int), repo@),
        decreases page@.len() - j,
    {
        let e = &page[j];
        let ghost base = out@.map_values(|s: String| s@);
        let mut i: usize = 0;
        while i < e.records.len()
            invariant
                i <= e.records@.len(),
                target@ == repo@,
                out@.map_values(|s: String| s@) == base + entry_nameless(
                    e.project@,
                    e.records@.take(i as int),
                    repo@,
                ),
            decreases e.records@.len() - i,
        {
            let r = &e.records[i];
            let ghost before = out@;
            proof {
                assert(e.records@.take(i + 1).drop_last() =~= e.records@.take(i as int));
                assert(e.records@.take(i + 1).last() == e.records@[i as int]);
            }
            if r.repo == target && r.visiblename.is_none() {
                out.push(e.project.clone());
                assert(out@.map_values(|s: String| s@) =~= before.map_values(|s: String| s@).push(
                    e.project@,
                ));
            }
            assert(out@.map_values(|s: String| s@) =~= base + entry_nameless(
                e.project@,
                e.records@.take(i + 1),
                repo@,
            ));
            i = i + 1;
        }
        proof {
            assert(e.records@.take(e.records@.len() as int) =~= e.records@);
            assert(page@.take(j + 1).drop_last() =~= page@.take(j as int));
            assert(page@.take(j + 1).last() == page@[j as int]);
        }
        j = j + 1;
    }
    assert(page@.take(page@.len() as int) =~= page@);
    out
}

} // verus!
