use path_utilities::dir_entries::{next_step, ReadOutcome, Step};
use path_utilities::path_buf::PathBuf;
use path_utilities::recollections::{
    data_file_path, empty_store_text, init, recall, recall_or_else, remember, DataFile,
    RecollectError, Recollections,
};

fn data_file(s: &str) -> DataFile {
    data_file_path(&PathBuf::from_str(s), None).unwrap()
}

#[test]
fn recollect_test() {
    let mut recollections = Recollections::new();
    let recollection_file = data_file("/tmp/recollection_test");
    init(&mut recollections, recollection_file, b"{}").unwrap();
    assert_eq!(recall(&recollections, "anything"), None);
    assert_eq!(recall_or_else(&recollections, "anything", "but"), "but");
    let write = remember(&mut recollections, "anything", "whatever").unwrap().unwrap();
    assert_eq!(write.file_path, PathBuf::from_str("/tmp/recollection_test"));
    assert_eq!(write.contents, br#"{"anything":"whatever"}"#.to_vec());
    assert_eq!(recall(&recollections, "anything"), Some("whatever".to_string()));
    assert_eq!(recall_or_else(&recollections, "anything", "but"), "whatever");
}

#[test]
fn uninitialised_store_ignores_remember() {
    let mut recollections = Recollections::new();
    assert!(remember(&mut recollections, "size", "10x20").unwrap().is_none());
    assert_eq!(recall(&recollections, "size"), None);
    assert_eq!(recall_or_else(&recollections, "size", "1x1"), "1x1");
    assert!(recollections.file_path().is_none());
}

#[test]
fn loading_reads_the_file_contents() {
    let mut recollections = Recollections::new();
    let file = data_file("/data/store");
    init(&mut recollections, file, br#"{"a":"1","b":"2"}"#).unwrap();
    assert_eq!(recall(&recollections, "a"), Some("1".to_string()));
    assert_eq!(recall(&recollections, "b"), Some("2".to_string()));
    assert_eq!(recall(&recollections, "c"), None);
    assert_eq!(recollections.file_path(), Some(&PathBuf::from_str("/data/store")));
    let write = remember(&mut recollections, "a", "3").unwrap().unwrap();
    assert_eq!(write.contents, br#"{"a":"3","b":"2"}"#.to_vec());
    assert_eq!(recall(&recollections, "a"), Some("3".to_string()));
}

#[test]
fn later_duplicate_names_win() {
    let mut recollections = Recollections::new();
    init(&mut recollections, data_file("/f"), br#"{"a":"1","a":"2"}"#).unwrap();
    assert_eq!(recall(&recollections, "a"), Some("2".to_string()));
}

#[test]
fn bad_contents_leave_the_store_alone() {
    let mut recollections = Recollections::new();
    let r = init(&mut recollections, data_file("/f"), b"not json");
    assert!(matches!(r, Err(RecollectError::SerdeError(_))));
    assert!(recollections.file_path().is_none());
    let r = init(&mut recollections, data_file("/f"), br#"{"a":1}"#);
    assert!(matches!(r, Err(RecollectError::SerdeError(_))));
    assert_eq!(recall(&recollections, "a"), None);
}

#[test]
fn the_store_keeps_the_absolute_form_of_its_file() {
    let cur = PathBuf::from_str("/home/u");
    let file = data_file_path(&PathBuf::from_str("./conf/store.json"), Some(&cur)).unwrap();
    let mut recollections = Recollections::new();
    init(&mut recollections, file, b"{}").unwrap();
    assert_eq!(
        recollections.file_path(),
        Some(&PathBuf::from_str("/home/u/conf/store.json"))
    );
    let write = remember(&mut recollections, "k", "v").unwrap().unwrap();
    assert_eq!(write.file_path, PathBuf::from_str("/home/u/conf/store.json"));
}

#[test]
fn empty_store_is_an_empty_object() {
    assert_eq!(empty_store_text().unwrap(), b"{}".to_vec());
}

#[test]
fn data_file_path_is_made_absolute() {
    let cur = PathBuf::from_str("/home/u");
    let r = data_file_path(&PathBuf::from_str("testing/testing"), Some(&cur)).unwrap();
    assert_eq!(r.path(), &PathBuf::from_str("/home/u/testing/testing"));
    let r = data_file_path(&PathBuf::from_str("testing"), None);
    assert!(matches!(r, Err(RecollectError::FilePathError(_))));
}

#[test]
fn directory_walk_steps() {
    assert_eq!(next_step(ReadOutcome::Read), Step::Yield);
    assert_eq!(next_step(ReadOutcome::NotFound), Step::Skip);
    assert_eq!(next_step(ReadOutcome::PermissionDenied), Step::SkipAndInform);
    assert_eq!(next_step(ReadOutcome::OtherError), Step::SkipAndWarn);
    assert_eq!(next_step(ReadOutcome::Exhausted), Step::Finish);
}
