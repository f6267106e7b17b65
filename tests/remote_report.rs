use arch_olde::error::OldeError;
use arch_olde::installed::InstalledPackage;
use arch_olde::reconcile::reconcile;
use arch_olde::remote::{latest_for, skipped_records, str_lt, ProjectEntries, RawRecord, RemoteCollector, RemotePackage};
use arch_olde::report::{build_report, classify, Outcome};
use arch_olde::version::comparable;

const BASE: &str = "https://repology.org/api/v1/projects/";

fn raw(repo: &str, name: Option<&str>, version: Option<&str>, status: Option<&str>) -> RawRecord {
    RawRecord {
        repo: repo.to_string(),
        visiblename: name.map(|s| s.to_string()),
        version: version.map(|s| s.to_string()),
        status: status.map(|s| s.to_string()),
    }
}

fn project(name: &str, records: Vec<RawRecord>) -> ProjectEntries {
    ProjectEntries { project: name.to_string(), records }
}

fn installed(name: &str, version: &str) -> InstalledPackage {
    InstalledPackage { name: name.to_string(), version: version.to_string() }
}

fn remote(project: &str, name: &str, version: &str, status: &str, latest: Option<&str>) -> RemotePackage {
    RemotePackage {
        project: project.to_string(),
        name: name.to_string(),
        version: Some(version.to_string()),
        status: Some(status.to_string()),
        latest: latest.map(|s| s.to_string()),
    }
}

#[test]
fn first_request_urls() {
    let c = RemoteCollector::new(BASE, "arch", false);
    let u = c.request(false).ok().unwrap().unwrap();
    assert_eq!(u, "https://repology.org/api/v1/projects/?inrepo=arch&outdated=1");
    let c = RemoteCollector::new(BASE, "arch", true);
    let u = c.request(false).ok().unwrap().unwrap();
    assert_eq!(u, "https://repology.org/api/v1/projects/?inrepo=arch");
}

#[test]
fn cancel_stops_before_fetch() {
    let mut c = RemoteCollector::new(BASE, "arch", false);
    assert!(matches!(c.request(true), Err(OldeError::Canceled(_))));
    c.absorb(&vec![project("a", vec![raw("arch", Some("a"), Some("1"), Some("newest"))])]);
    assert!(matches!(c.request(true), Err(OldeError::Canceled(_))));
    let u = c.request(false).ok().unwrap().unwrap();
    assert_eq!(u, "https://repology.org/api/v1/projects/a/?inrepo=arch&outdated=1");
}

#[test]
fn pagination_ends_after_three_pages() {
    let pages = vec![
        vec![
            project("beta", vec![raw("arch", Some("beta"), Some("1"), Some("outdated"))]),
            project("alpha", vec![raw("arch", Some("alpha"), Some("1"), Some("outdated"))]),
        ],
        vec![project("gamma", vec![raw("arch", Some("gamma"), Some("2"), Some("outdated"))])],
        vec![project("gamma", vec![raw("arch", Some("gamma"), Some("2"), Some("outdated"))])],
        vec![project("zeta", vec![])],
    ];
    let mut c = RemoteCollector::new(BASE, "arch", false);
    let mut fetched = 0;
    let mut polls = 0;
    let mut urls = Vec::new();
    while !c.is_finished() {
        polls += 1;
        match c.request(false) {
            Ok(Some(u)) => {
                urls.push(u);
                c.absorb(&pages[fetched]);
                fetched += 1;
            }
            Ok(None) => break,
            Err(_) => panic!("not canceled"),
        }
    }
    assert_eq!(fetched, 3);
    assert_eq!(polls, 3);
    assert!(matches!(c.request(true), Ok(None)));
    assert_eq!(urls[1], "https://repology.org/api/v1/projects/beta/?inrepo=arch&outdated=1");
    assert_eq!(urls[2], "https://repology.org/api/v1/projects/gamma/?inrepo=arch&outdated=1");
    let rs = c.into_records();
    assert_eq!(rs.len(), 3);
}

#[test]
fn empty_page_ends_collection() {
    let mut c = RemoteCollector::new(BASE, "arch", true);
    c.absorb(&vec![]);
    assert!(matches!(c.request(false), Ok(None)));
    assert_eq!(c.into_records().len(), 0);
}

#[test]
fn page_records_filtered_and_latest_set() {
    let page = vec![project(
        "python:foo",
        vec![
            raw("debian", Some("python3-foo"), Some("2.0"), Some("newest")),
            raw("arch", Some("python-foo"), Some("1.0"), Some("outdated")),
            raw("arch", None, Some("1.0"), Some("outdated")),
            raw("fedora", Some("python-foo"), Some("2.1"), Some("unique")),
            raw("arch", Some("python-foo-doc"), Some("1.0"), Some("outdated")),
        ],
    )];
    let mut c = RemoteCollector::new(BASE, "arch", false);
    c.absorb(&page);
    let rs = c.into_records();
    assert_eq!(rs.len(), 2);
    for r in &rs {
        assert_eq!(r.project, "python:foo");
        assert_eq!(r.latest, Some("2.0".to_string()));
        assert_eq!(r.version, Some("1.0".to_string()));
    }
    assert_eq!(rs[0].name, "python-foo");
    assert_eq!(rs[1].name, "python-foo-doc");
}

#[test]
fn identical_records_coalesce() {
    let p = vec![project("foo", vec![raw("arch", Some("foo"), Some("1"), Some("outdated"))])];
    let mut c = RemoteCollector::new(BASE, "arch", true);
    c.absorb(&p);
    c.absorb(&vec![project("bar", vec![]), project("foo", vec![raw("arch", Some("foo"), Some("1"), Some("outdated"))])]);
    assert_eq!(c.into_records().len(), 1);
}

#[test]
fn latest_first_marked_wins() {
    let rs = vec![
        raw("a", Some("x"), Some("1"), Some("outdated")),
        raw("b", Some("x"), Some("3"), Some("unique")),
        raw("c", Some("x"), Some("4"), Some("newest")),
    ];
    assert_eq!(latest_for(&rs), Some("3".to_string()));
    let none = vec![raw("a", Some("x"), Some("1"), Some("legacy")), raw("b", None, None, None)];
    assert_eq!(latest_for(&none), None);
    let no_version = vec![raw("a", Some("x"), None, Some("newest"))];
    assert_eq!(latest_for(&no_version), None);
}

#[test]
fn string_order() {
    assert!(str_lt(&"abc".to_string(), &"abd".to_string()));
    assert!(str_lt(&"ab".to_string(), &"abc".to_string()));
    assert!(!str_lt(&"abc".to_string(), &"abc".to_string()));
    assert!(!str_lt(&"b".to_string(), &"abc".to_string()));
}

#[test]
fn classify_equal_is_up_to_date() {
    assert!(matches!(classify(&"2.1".to_string(), &Some("2.1".to_string())), Outcome::UpToDate));
}

#[test]
fn classify_older_is_outdated() {
    assert!(matches!(classify(&"2.0".to_string(), &Some("2.1".to_string())), Outcome::Outdated));
    assert!(matches!(classify(&"2.9".to_string(), &Some("2.10".to_string())), Outcome::Outdated));
    assert!(matches!(classify(&"1.2".to_string(), &Some("1.2.1".to_string())), Outcome::Outdated));
}

#[test]
fn classify_newer_and_unknown() {
    assert!(matches!(classify(&"2.10".to_string(), &Some("2.9".to_string())), Outcome::UpToDate));
    assert!(matches!(classify(&"1.0".to_string(), &None), Outcome::NoLatest));
}

#[test]
fn comparable_versions() {
    assert!(comparable("1.2.3"));
    assert!(comparable("4294967295"));
    assert!(!comparable("4294967296"));
    assert!(comparable("20240101.1"));
    assert!(!comparable("1.99999999999"));
}

#[test]
fn scenario_one_outdated() {
    let inst = vec![installed("foo", "1.0")];
    let rem = vec![remote("foo", "foo", "1.0", "outdated", Some("2.0"))];
    let r = build_report(&inst, &rem).ok().unwrap();
    assert_eq!(r.outdated.len(), 1);
    assert_eq!(r.outdated[0].project, "foo");
    assert_eq!(r.outdated[0].local_name, "foo");
    assert_eq!(r.outdated[0].installed, "1.0");
    assert_eq!(r.outdated[0].latest, Some("2.0".to_string()));
    assert_eq!(r.no_latest.len(), 0);
    assert_eq!(r.missing.len(), 0);
    assert_eq!(r.installed_count, 1);
    assert_eq!(r.outdated.len() * 100 / r.installed_count, 100);
}

#[test]
fn scenario_missing_package() {
    let inst = vec![installed("bar", "1.0")];
    let rem: Vec<RemotePackage> = vec![];
    let r = build_report(&inst, &rem).ok().unwrap();
    assert_eq!(r.missing, vec!["bar".to_string()]);
    assert_eq!(r.outdated.len(), 0);
    assert_eq!(r.joined_count, 0);
}

#[test]
fn report_sorts_missing_and_drops_up_to_date() {
    let inst = vec![
        installed("zed", "1.0"),
        installed("abc", "1.0"),
        installed("cur", "2.1"),
        installed("nol", "0.1"),
    ];
    let rem = vec![
        remote("cur", "cur", "2.1", "newest", Some("2.1")),
        remote("nol", "nol", "0.1", "legacy", None),
    ];
    let r = build_report(&inst, &rem).ok().unwrap();
    assert_eq!(r.missing, vec!["abc".to_string(), "zed".to_string()]);
    assert_eq!(r.outdated.len(), 0);
    assert_eq!(r.no_latest.len(), 1);
    assert_eq!(r.no_latest[0].local_name, "nol");
    assert_eq!(r.joined_count, 2);
    assert_eq!(r.installed_count, 4);
}

#[test]
fn duplicate_key_is_refused() {
    let inst = vec![installed("foo", "1.0"), installed("foo", "1.1")];
    let rem = vec![remote("foo", "foo", "1.0", "outdated", Some("2.0"))];
    match reconcile(&inst, &rem) {
        Err(OldeError::DuplicatePackage(n)) => assert_eq!(n, "foo"),
        _ => panic!("expected DuplicatePackage"),
    }
    assert!(matches!(build_report(&inst, &rem), Err(OldeError::DuplicatePackage(_))));
}

#[test]
fn one_project_two_local_names() {
    let inst = vec![installed("pycrypto", "2.6"), installed("pycryptodome", "3.0")];
    let rem = vec![
        remote("python:crypto", "pycrypto", "2.6", "legacy", Some("3.1")),
        remote("python:crypto", "pycryptodome", "3.0", "outdated", Some("3.1")),
    ];
    let (es, missing) = reconcile(&inst, &rem).ok().unwrap();
    assert_eq!(es.len(), 2);
    assert_eq!(missing.len(), 0);
}

#[test]
fn bad_version_is_reported() {
    let inst = vec![installed("foo", "99999999999")];
    let rem = vec![remote("foo", "foo", "1", "outdated", Some("2.0"))];
    match build_report(&inst, &rem) {
        Err(OldeError::BadVersion(v)) => assert_eq!(v, "99999999999"),
        _ => panic!("expected BadVersion"),
    }
}

#[test]
fn report_orders_entries_by_project_then_name() {
    let inst = vec![installed("zz", "1.0"), installed("aa", "1.0"), installed("mm", "1.0")];
    let rem = vec![
        remote("p2", "zz", "1.0", "outdated", Some("2.0")),
        remote("p2", "aa", "1.0", "outdated", Some("2.0")),
        remote("p1", "mm", "1.0", "outdated", Some("2.0")),
    ];
    let r = build_report(&inst, &rem).ok().unwrap();
    let keys: Vec<(String, String)> =
        r.outdated.iter().map(|e| (e.project.clone(), e.local_name.clone())).collect();
    assert_eq!(
        keys,
        vec![
            ("p1".to_string(), "mm".to_string()),
            ("p2".to_string(), "aa".to_string()),
            ("p2".to_string(), "zz".to_string()),
        ]
    );
}

#[test]
fn cancel_after_last_page_keeps_result() {
    let mut c = RemoteCollector::new(BASE, "arch", false);
    let p = vec![project("a", vec![raw("arch", Some("a"), Some("1"), Some("newest"))])];
    c.absorb(&p);
    c.absorb(&p);
    assert!(c.is_finished());
    assert!(matches!(c.request(true), Ok(None)));
    assert_eq!(c.into_records().len(), 1);
}

#[test]
fn cancel_on_first_poll_fetches_nothing() {
    let c = RemoteCollector::new(BASE, "arch", true);
    assert!(!c.is_finished());
    assert!(matches!(c.request(true), Err(OldeError::Canceled(_))));
}

#[test]
fn skipped_records_named_by_project() {
    let page = vec![
        project("p1", vec![raw("arch", None, Some("1"), None), raw("debian", None, None, None)]),
        project("p2", vec![raw("arch", Some("x"), None, None), raw("arch", None, None, None)]),
    ];
    assert_eq!(skipped_records(&page, "arch"), vec!["p1".to_string(), "p2".to_string()]);
    assert_eq!(skipped_records(&page, "fedora"), Vec::<String>::new());
}

#[test]
fn outdated_entry_listed_once() {
    let inst = vec![installed("foo", "2.0")];
    let rem = vec![remote("foo", "foo", "2.0", "outdated", Some("2.1"))];
    let r = build_report(&inst, &rem).ok().unwrap();
    assert_eq!(r.outdated.len(), 1);
    assert_eq!(r.outdated[0].installed, "2.0");
    assert_eq!(r.outdated[0].latest, Some("2.1".to_string()));
}
