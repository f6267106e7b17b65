use arch_olde::error::{join_outcomes, OldeError};
use arch_olde::installed::{normalize_version, get_packages};
use arch_olde::text::chars_of;

#[test]
fn normalize_strips_epoch_and_release() {
    assert_eq!(normalize_version("1:2.3-4"), Some("2.3".to_string()));
    assert_eq!(normalize_version("2:1.0.0-1"), Some("1.0.0".to_string()));
}

#[test]
fn normalize_plain_version() {
    assert_eq!(normalize_version("24.09-3"), Some("24.09".to_string()));
    assert_eq!(normalize_version("2.3.2-1"), Some("2.3.2".to_string()));
}

#[test]
fn normalize_cuts_at_last_hyphen() {
    assert_eq!(normalize_version("1.0-rc1-2"), Some("1.0-rc1".to_string()));
    assert_eq!(normalize_version("3:a:b-c-d"), Some("a:b-c".to_string()));
}

#[test]
fn normalize_without_release_fails() {
    assert_eq!(normalize_version("1.0"), None);
    assert_eq!(normalize_version("1:1.0"), None);
    assert_eq!(normalize_version("1-2:3"), None);
}

#[test]
fn parse_two_packages() {
    let r = get_packages("7zip 24.09-3\nacl 2.3.2-1\n", "pacman -Q").ok().unwrap();
    assert_eq!(r.len(), 2);
    assert_eq!(r[0].name, "7zip");
    assert_eq!(r[0].version, "24.09");
    assert_eq!(r[1].name, "acl");
    assert_eq!(r[1].version, "2.3.2");
}

#[test]
fn parse_epoch_and_crlf_and_skip() {
    let r = get_packages("noversion\r\nfoo 1:2.0-1\r\nbar 3.1-2", "q").ok().unwrap();
    assert_eq!(r.len(), 2);
    assert_eq!(r[0].name, "foo");
    assert_eq!(r[0].version, "2.0");
    assert_eq!(r[1].name, "bar");
    assert_eq!(r[1].version, "3.1");
}

#[test]
fn parse_deduplicates() {
    let r = get_packages("foo 1.0-1\nfoo 1.0-2\nfoo 1.1-1\n", "q").ok().unwrap();
    assert_eq!(r.len(), 2);
    assert_eq!(r[0].version, "1.0");
    assert_eq!(r[1].version, "1.1");
}

#[test]
fn parse_empty_is_empty_output() {
    match get_packages("", "pacman -Q") {
        Err(OldeError::EmptyOutput(c)) => assert_eq!(c, "pacman -Q"),
        _ => panic!("expected EmptyOutput"),
    }
    match get_packages("\n\nno-space-here\n", "pacman -Q") {
        Err(OldeError::EmptyOutput(c)) => assert_eq!(c, "pacman -Q"),
        _ => panic!("expected EmptyOutput"),
    }
}

#[test]
fn parse_missing_release_is_error() {
    match get_packages("good 1.0-1\nbad 1.0\nworse 2\n", "q") {
        Err(OldeError::MissingRelease(l)) => assert_eq!(l, "bad 1.0"),
        _ => panic!("expected MissingRelease"),
    }
}

#[test]
fn chars_round_trip() {
    assert_eq!(chars_of("aé-1"), vec!['a', 'é', '-', '1']);
}

#[test]
fn join_outcomes_both_ok() {
    let r: Result<(u8, u8), OldeError> = join_outcomes(Ok(1u8), Ok(2u8));
    assert_eq!(r.ok(), Some((1, 2)));
}

#[test]
fn join_outcomes_collects_errors() {
    let r = join_outcomes::<u8, u8>(
        Err(OldeError::Command("curl".to_string())),
        Err(OldeError::Canceled("x".to_string())),
    );
    match r {
        Err(OldeError::MultipleErrors(v)) => {
            assert_eq!(v.len(), 2);
            assert!(matches!(&v[0], OldeError::Command(m) if m == "curl"));
            assert!(matches!(&v[1], OldeError::Canceled(_)));
        }
        _ => panic!("expected MultipleErrors"),
    }
    let r = join_outcomes::<u8, u8>(Ok(1), Err(OldeError::EmptyOutput("q".to_string())));
    match r {
        Err(OldeError::MultipleErrors(v)) => {
            assert_eq!(v.len(), 1);
            assert!(matches!(&v[0], OldeError::EmptyOutput(_)));
        }
        _ => panic!("expected MultipleErrors"),
    }
}

#[test]
fn bare_carriage_return_at_end_stays() {
    match get_packages("foo 1.0-1\nbad 1.0\r", "q") {
        Err(OldeError::MissingRelease(l)) => assert_eq!(l, "bad 1.0\r"),
        _ => panic!("expected MissingRelease"),
    }
    let r = get_packages("foo 1.0-1\r\nbar 2-1", "q").ok().unwrap();
    assert_eq!(r[0].version, "1.0");
    assert_eq!(r[1].name, "bar");
}
