use hematite::layout::{stream_dir_name, stream_id_from_dir_name};
use hematite::server::{
    check_health, discover_streams, is_reserved_dir, stream_ids, user_stream_id, Error, HealthStatus,
};

#[test]
fn stream_dir_names_are_base32() {
    assert_eq!(stream_dir_name("abc"), "MFRGG");
    assert_eq!(stream_dir_name("foobar"), "MZXW6YTBOI");
    assert_eq!(stream_dir_name(""), "");
    assert_eq!(stream_dir_name("a/b"), "MEXWE");
}

#[test]
fn dir_names_decode_back_to_stream_ids() {
    assert_eq!(stream_id_from_dir_name("MFRGG"), Some("abc".to_string()));
    let name = stream_dir_name("ström ☃");
    assert_eq!(stream_id_from_dir_name(&name), Some("ström ☃".to_string()));
    assert_eq!(stream_id_from_dir_name("mfrgg"), None);
    assert_eq!(stream_id_from_dir_name("MFRGH"), None);
    assert_eq!(stream_id_from_dir_name("7Q"), None);
    assert_eq!(stream_id_from_dir_name("lost+found"), None);
}

#[test]
fn reserved_directory() {
    assert!(is_reserved_dir("lost+found"));
    assert!(!is_reserved_dir("lost+found2"));
    assert!(!is_reserved_dir("u1"));
}

#[test]
fn discovery_skips_reserved_and_malformed_entries() {
    let listing = vec![
        ("u1".to_string(), vec!["MFRGG".to_string(), "bad!".to_string(), "MZXW6".to_string()]),
        ("lost+found".to_string(), vec!["MFRGG".to_string()]),
        ("u2".to_string(), vec![]),
        ("u3".to_string(), vec!["MZXW6YTBOI".to_string()]),
    ];
    let found = discover_streams(&listing);
    assert_eq!(
        found,
        vec![
            ("u1".to_string(), "abc".to_string()),
            ("u1".to_string(), "foo".to_string()),
            ("u3".to_string(), "foobar".to_string()),
        ]
    );
    assert_eq!(stream_ids(&vec!["MFRGG".to_string(), "?".to_string()]), vec!["abc".to_string()]);
}

#[test]
fn registry_keys_and_health() {
    let key = user_stream_id(&"u".to_string(), &"s".to_string());
    assert_eq!(key, ("u".to_string(), "s".to_string()));
    assert_eq!(check_health().status, HealthStatus::Pass);
    assert_eq!(Error::StreamNotFound.status_code(), 404);
}
