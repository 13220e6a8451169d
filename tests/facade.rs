use hematite::api::{
    page_bounds, page_cache_control, parse_expected_revision, parse_sort, parse_u64, sort_streams,
    SortField, SortOrder,
};
use hematite::db::{Error, ExpectedRevision};
use hematite::openid::{bearer_token, find_key, JsonWebKey, TokenFailure};
use hematite::server::Stream;

#[test]
fn u64_text_reads_as_rust_does() {
    assert_eq!(parse_u64("0"), Some(0));
    assert_eq!(parse_u64("+42"), Some(42));
    assert_eq!(parse_u64("18446744073709551615"), Some(u64::MAX));
    assert_eq!(parse_u64("18446744073709551616"), None);
    assert_eq!(parse_u64(""), None);
    assert_eq!(parse_u64("+"), None);
    assert_eq!(parse_u64("-1"), None);
    assert_eq!(parse_u64("12a"), None);
    assert_eq!(parse_u64(" 1"), None);
}

#[test]
fn expected_revision_parameter() {
    assert_eq!(parse_expected_revision("any"), Some(ExpectedRevision::Any));
    assert_eq!(parse_expected_revision("no-stream"), Some(ExpectedRevision::NoStream));
    assert_eq!(parse_expected_revision("stream-exists"), Some(ExpectedRevision::StreamExists));
    assert_eq!(parse_expected_revision("17"), Some(ExpectedRevision::Exact(17)));
    assert_eq!(parse_expected_revision("Any"), None);
    assert_eq!(parse_expected_revision("latest"), None);
}

#[test]
fn page_parameters() {
    assert_eq!(page_bounds(None, None), (0, 50));
    assert_eq!(page_bounds(Some("10"), Some("20")), (10, 20));
    assert_eq!(page_bounds(Some("x"), Some("y")), (0, 50));
    assert_eq!(page_bounds(Some("-3"), Some("5000")), (0, 1000));
    assert_eq!(page_bounds(None, Some("1000")), (0, 1000));
}

#[test]
fn cache_policy_of_pages() {
    assert_eq!(page_cache_control(50, 50), "max-age=31536000, immutable");
    assert_eq!(page_cache_control(3, 50), "no-cache");
}

#[test]
fn statuses_of_errors() {
    assert_eq!(Error::RevisionMismatch.status_code(), 409);
    assert_eq!(Error::SourceIdConflict.status_code(), 409);
    assert_eq!(Error::Stopped.status_code(), 409);
    assert_eq!(Error::DecodeFailed.status_code(), 500);
    assert_eq!(Error::EmptyAppend.status_code(), 500);
}

fn stream(id: &str, revision: u64, last_modified: u64, usage: u64) -> Stream {
    Stream { id: id.to_string(), revision, last_modified, usage }
}

fn ids(v: &[Stream]) -> Vec<&str> {
    v.iter().map(|s| s.id.as_str()).collect()
}

#[test]
fn sort_keys() {
    assert_eq!(parse_sort("id"), Some(SortOrder { field: SortField::Id, descending: false }));
    assert_eq!(parse_sort("-usage"), Some(SortOrder { field: SortField::Usage, descending: true }));
    assert_eq!(parse_sort("revision"), Some(SortOrder { field: SortField::Revision, descending: false }));
    assert_eq!(parse_sort("-last_modified"), Some(SortOrder { field: SortField::LastModified, descending: true }));
    assert_eq!(parse_sort("-id"), Some(SortOrder { field: SortField::Id, descending: true }));
    assert_eq!(parse_sort("size"), None);
    assert_eq!(parse_sort("--id"), None);
    assert_eq!(parse_sort(""), None);
}

#[test]
fn streams_sort_by_each_key() {
    let base = vec![stream("b", 3, 30, 100), stream("a", 1, 20, 300), stream("c", 2, 10, 200), stream("B", 2, 40, 100)];
    let mut v = base.clone();
    sort_streams(&mut v, parse_sort("id").unwrap());
    assert_eq!(ids(&v), vec!["B", "a", "b", "c"]);
    let mut v = base.clone();
    sort_streams(&mut v, parse_sort("-usage").unwrap());
    assert_eq!(ids(&v), vec!["a", "c", "b", "B"]);
    let mut v = base.clone();
    sort_streams(&mut v, parse_sort("revision").unwrap());
    assert_eq!(ids(&v), vec!["a", "c", "B", "b"]);
    let mut v = base.clone();
    sort_streams(&mut v, parse_sort("-last_modified").unwrap());
    assert_eq!(ids(&v), vec!["B", "b", "a", "c"]);
    let mut v: Vec<Stream> = Vec::new();
    sort_streams(&mut v, parse_sort("id").unwrap());
    assert!(v.is_empty());
}

#[test]
fn bearer_tokens() {
    assert_eq!(bearer_token("Bearer abc.def"), Some("abc.def"));
    assert_eq!(bearer_token("Bearer "), Some(""));
    assert_eq!(bearer_token("bearer abc"), None);
    assert_eq!(bearer_token("Basic abc"), None);
    assert_eq!(bearer_token("Bear"), None);
}

#[test]
fn signing_key_by_id() {
    let key = |kid: &str, x: &str| JsonWebKey { kid: kid.to_string(), x: x.to_string(), y: "y".to_string() };
    let keys = vec![key("k1", "x1"), key("k2", "x2"), key("k2", "x3")];
    assert_eq!(find_key(&keys, "k2").map(|k| k.x), Some("x2".to_string()));
    assert!(find_key(&keys, "k9").is_none());
    assert!(find_key(&Vec::new(), "k1").is_none());
}

#[test]
fn token_failure_descriptions() {
    assert_eq!(TokenFailure::ExpiredSignature.description(), "token has expired");
    assert_eq!(TokenFailure::InvalidAudience.description(), "token has an invalid audience");
    assert_eq!(TokenFailure::InvalidSignature.description(), "token has an invalid signature");
    assert_eq!(TokenFailure::Invalid.description(), "Bearer token is invalid");
}

#[test]
fn revisions_count_from_one() {
    assert_eq!(hematite::api::revision_index(0), None);
    assert_eq!(hematite::api::revision_index(1), Some(0));
    assert_eq!(hematite::api::revision_index(u64::MAX), Some(u64::MAX - 1));
}
