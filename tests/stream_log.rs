use hematite::db::{
    read_events, AppendPlan, Database, Error, ExpectedRevision, RunState, StartOutcome,
};
use hematite::event::Event;
use hematite::index::encode_offsets;
use hematite::lines::line_offsets;

/// The two files of one stream, kept in memory.
struct Files {
    log: Vec<u8>,
    index: Vec<u8>,
}

impl Files {
    fn empty() -> Files {
        Files { log: Vec::new(), index: Vec::new() }
    }

    fn apply(&mut self, plan: &AppendPlan) {
        assert_eq!(plan.log_offset as usize, self.log.len());
        self.log.extend_from_slice(&plan.records);
        self.index.extend_from_slice(&plan.index);
    }
}

fn ev(text: &str) -> Event {
    Event::parse(text.as_bytes()).expect("valid event")
}

fn running(files: &Files) -> Database {
    let mut db = Database::new("/streams/u1/ON2Q");
    db.start(&files.log, &files.index);
    db
}

fn query(db: &Database, files: &Files, start: u64, limit: usize) -> Vec<Event> {
    match db.query_window(start, limit).expect("running") {
        None => Vec::new(),
        Some(w) => read_events(&files.log[w.from as usize..w.to as usize]).expect("decodes"),
    }
}

fn append(db: &mut Database, files: &mut Files, events: Vec<Event>, expected: ExpectedRevision) -> Result<u64, Error> {
    let plan = db.append(&events, expected)?;
    files.apply(&plan);
    Ok(plan.revision)
}

#[test]
fn first_append() {
    let mut files = Files::empty();
    let mut db = running(&files);
    let e = ev(r#"{"source":"a","id":"1"}"#);
    let rev = append(&mut db, &mut files, vec![e], ExpectedRevision::NoStream).unwrap();
    assert_eq!(rev, 1);
    assert_eq!(db.revision(), 1);
    let got = query(&db, &files, 0, 10);
    assert_eq!(got.len(), 1);
    assert_eq!(got[0].as_bytes(), br#"{"id":"1","source":"a"}"#);
    assert!(db.file_len() > 0);
    assert_eq!(files.index.len(), 8);
}

#[test]
fn precondition_failure_leaves_stream_unchanged() {
    let mut files = Files::empty();
    let mut db = running(&files);
    append(&mut db, &mut files, vec![ev(r#"{"source":"a","id":"1"}"#)], ExpectedRevision::NoStream).unwrap();
    let len = db.file_len();
    let r = append(&mut db, &mut files, vec![ev(r#"{"source":"a","id":"2"}"#)], ExpectedRevision::NoStream);
    assert_eq!(r, Err(Error::RevisionMismatch));
    assert_eq!(db.revision(), 1);
    assert_eq!(db.file_len(), len);
    assert_eq!(files.log.len() as u64, len);
}

#[test]
fn exact_match_appends_in_order() {
    let mut files = Files::empty();
    let mut db = running(&files);
    let e1 = ev(r#"{"source":"a","id":"1"}"#);
    let e2 = ev(r#"{"source":"a","id":"2"}"#);
    append(&mut db, &mut files, vec![e1], ExpectedRevision::Any).unwrap();
    let rev = append(&mut db, &mut files, vec![e2], ExpectedRevision::Exact(1)).unwrap();
    assert_eq!(rev, 2);
    let got = query(&db, &files, 0, 10);
    assert_eq!(got.len(), 2);
    assert_eq!(got[0].as_bytes(), br#"{"id":"1","source":"a"}"#);
    assert_eq!(got[1].as_bytes(), br#"{"id":"2","source":"a"}"#);
}

#[test]
fn range_read_past_end_is_empty() {
    let mut files = Files::empty();
    let mut db = running(&files);
    for i in 0..3 {
        let e = ev(&format!(r#"{{"source":"a","id":"{}"}}"#, i));
        append(&mut db, &mut files, vec![e], ExpectedRevision::Any).unwrap();
    }
    assert!(query(&db, &files, 5, 10).is_empty());
    assert_eq!(db.query_window(3, 10), Ok(None));
    assert_eq!(db.query_window(0, 0), Ok(None));
}

#[test]
fn batch_append_and_read_back() {
    let mut files = Files::empty();
    let mut db = running(&files);
    let events: Vec<Event> = (1..=200).map(|i| ev(&format!(r#"{{"source":"s","id":"{}"}}"#, i))).collect();
    let rev = append(&mut db, &mut files, events, ExpectedRevision::Any).unwrap();
    assert_eq!(rev, 200);
    let got = query(&db, &files, 100, 50);
    assert_eq!(got.len(), 50);
    for (k, e) in got.iter().enumerate() {
        let want = format!(r#"{{"id":"{}","source":"s"}}"#, 101 + k);
        assert_eq!(e.as_bytes(), want.as_bytes());
    }
    assert_eq!(files.index.len(), 1600);
}

#[test]
fn delete_then_recreate() {
    let mut files = Files::empty();
    let mut db = running(&files);
    append(&mut db, &mut files, vec![ev(r#"{"source":"a","id":"1"}"#)], ExpectedRevision::Any).unwrap();
    db.delete();
    assert_eq!(db.state(), RunState::Stopped);
    assert_eq!(db.revision(), 0);
    let mut files = Files::empty();
    let mut db = running(&files);
    let rev = append(&mut db, &mut files, vec![ev(r#"{"source":"a","id":"1"}"#)], ExpectedRevision::NoStream).unwrap();
    assert_eq!(rev, 1);
    assert_eq!(files.index.len(), 8);
}

#[test]
fn read_nonexistent() {
    let files = Files::empty();
    let db = running(&files);
    assert!(query(&db, &files, 0, 1).is_empty());
}

#[test]
fn can_write_expecting_no_stream_in_empty_db() {
    let mut files = Files::empty();
    let mut db = running(&files);
    append(&mut db, &mut files, vec![ev(r#"{"source":"a","id":"1"}"#)], ExpectedRevision::NoStream)
        .expect("Could not write to the DB");
}

#[test]
fn cannot_write_expecting_no_stream_in_non_empty_db() {
    let mut files = Files::empty();
    let mut db = running(&files);
    append(&mut db, &mut files, vec![ev(r#"{"source":"a","id":"1"}"#)], ExpectedRevision::NoStream)
        .expect("Could not write to the DB");
    assert!(append(&mut db, &mut files, vec![ev(r#"{"source":"a","id":"2"}"#)], ExpectedRevision::NoStream).is_err());
}

#[test]
fn cannot_write_to_empty_db_expecting_stream_exists() {
    let mut files = Files::empty();
    let mut db = running(&files);
    assert!(append(&mut db, &mut files, vec![ev(r#"{"source":"a","id":"1"}"#)], ExpectedRevision::StreamExists).is_err());
}

#[test]
fn exact_zero_matches_only_an_empty_stream() {
    let mut files = Files::empty();
    let mut db = running(&files);
    assert_eq!(append(&mut db, &mut files, vec![ev(r#"{"id":"1"}"#)], ExpectedRevision::Exact(0)), Ok(1));
    assert_eq!(append(&mut db, &mut files, vec![ev(r#"{"id":"2"}"#)], ExpectedRevision::Exact(0)), Err(Error::RevisionMismatch));
    assert_eq!(append(&mut db, &mut files, vec![ev(r#"{"id":"2"}"#)], ExpectedRevision::StreamExists), Ok(2));
}

#[test]
fn revision_counts_every_event() {
    let mut files = Files::empty();
    let mut db = running(&files);
    for n in 1..=100u64 {
        let rev = append(&mut db, &mut files, vec![ev(r#"{"id":"x"}"#)], ExpectedRevision::Any).unwrap();
        assert_eq!(rev, n);
        assert_eq!(db.revision(), n);
    }
    let three: Vec<Event> = (0..3).map(|_| ev("{}")).collect();
    assert_eq!(append(&mut db, &mut files, three, ExpectedRevision::Exact(100)), Ok(103));
}

#[test]
fn index_entries_point_at_lines() {
    let mut files = Files::empty();
    let mut db = running(&files);
    let events = vec![ev(r#"{"a":1}"#), ev(r#"{"b":"two"}"#), ev("[]")];
    append(&mut db, &mut files, events, ExpectedRevision::Any).unwrap();
    let (starts, tail) = line_offsets(&files.log);
    assert_eq!(tail as usize, files.log.len());
    for (i, s) in starts.iter().enumerate() {
        let entry = u64::from_be_bytes(files.index[i * 8..i * 8 + 8].try_into().unwrap());
        assert_eq!(entry, *s);
        assert!(*s == 0 || files.log[*s as usize - 1] == b'\n');
    }
    assert_eq!(starts, vec![0, 8, 20]);
}

#[test]
fn errors_on_a_stopped_or_empty_append() {
    let mut db = Database::new("/s");
    assert_eq!(db.state(), RunState::Stopped);
    assert_eq!(db.append(&vec![ev("{}")], ExpectedRevision::Any).err(), Some(Error::Stopped));
    assert_eq!(db.query_window(0, 1), Err(Error::Stopped));
    db.start(b"", b"");
    assert_eq!(db.append(&Vec::new(), ExpectedRevision::Any).err(), Some(Error::EmptyAppend));
}

#[test]
fn start_twice_changes_nothing() {
    let mut db = Database::new("/s");
    assert!(matches!(db.start(b"{}\n", &encode_offsets(&[0])), StartOutcome::Clean));
    assert!(matches!(db.start(b"", b""), StartOutcome::AlreadyRunning));
    assert_eq!(db.revision(), 1);
}

#[test]
fn crash_recovery_drops_partial_line_and_rebuilds_index() {
    // the append wrote its records but crashed inside the second one, before any index entry
    let log = b"{\"id\":\"1\"}\n{\"id\":\"2\"}\n{\"id\"".to_vec();
    let index = encode_offsets(&[0]);
    let mut db = Database::new("/s");
    match db.start(&log, &index) {
        StartOutcome::Repaired(rep) => {
            assert_eq!(rep.log_len, 22);
            assert_eq!(rep.index, encode_offsets(&[0, 11]));
        }
        _ => panic!("expected a repair"),
    }
    assert_eq!(db.revision(), 2);
    assert_eq!(db.file_len(), 22);
    let files = Files { log: log[..22].to_vec(), index: encode_offsets(&[0, 11]) };
    let got = query(&db, &files, 1, 5);
    assert_eq!(got.len(), 1);
    assert_eq!(got[0].as_bytes(), br#"{"id":"2"}"#);
}

#[test]
fn undecodable_line_fails_the_read() {
    assert_eq!(read_events(b"{}\nnot json\n").err(), Some(Error::DecodeFailed));
    assert_eq!(read_events(b"{}\n[1]\npartial").unwrap().len(), 2);
}

#[test]
fn paths_of_the_stream_files() {
    let db = Database::new("/data/u1/MFRGG");
    assert_eq!(db.events_path(), "/data/u1/MFRGG/events.ndjson");
    assert_eq!(db.index_path(), "/data/u1/MFRGG/index.dat");
    assert_eq!(db.path(), "/data/u1/MFRGG");
}

#[test]
fn expected_revision_defaults_to_any() {
    assert_eq!(ExpectedRevision::default(), ExpectedRevision::Any);
    assert!(ExpectedRevision::Exact(3).matches(3));
    assert!(!ExpectedRevision::Exact(3).matches(2));
    assert!(ExpectedRevision::NoStream.matches(0));
    assert!(!ExpectedRevision::StreamExists.matches(0));
}
