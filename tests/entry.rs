use std::sync::mpsc::channel;

use crypto::digest::Digest;
use crypto::md5::Md5;

use picman::entry::{failure_record, ChannelSender, Entry, EntryFactory, EntrySendError};
use picman::utils::{CursorReadOpener, HashDigester, IoError, Md5Digest};

/// Uses the path itself as the file contents.
fn create_cursor(path: &str) -> Vec<u8> {
    path.as_bytes().to_vec()
}

fn create_digester(path: &str) -> HashDigester<Md5Digest, CursorReadOpener> {
    let mut opener = CursorReadOpener::new();
    opener.add_path(path, create_cursor(path));
    HashDigester::new(Md5Digest::new(), opener)
}

fn md5_of(data: &[u8]) -> String {
    let mut md5 = Md5::new();
    md5.input(data);
    md5.result_str()
}

#[test]
fn test_entry_factory_creates_entry() {
    let path = "my/test/file-name".to_string();
    let mut digester = create_digester(&path);
    let primary = digester.get_digest(&path).unwrap();
    let expected = Entry::new(&path, &primary);

    let mut factory = EntryFactory::new(digester);
    let entry = factory.create(path).unwrap();

    assert_eq!(entry, expected);
}

#[test]
fn test_entry_factory_send_many() {
    let mut opener = CursorReadOpener::new();

    let paths = vec![
        "a.jpg".to_string(),
        "b.jpg".to_string(),
        "c.jpg".to_string(),
        "d.jpg".to_string(),
    ];

    for path in &paths {
        opener.add_path(path, create_cursor(path));
    }

    let mut digester = HashDigester::new(Md5Digest::new(), opener);
    let (send, recv) = channel::<Result<Entry, IoError>>();

    let expected: Vec<Entry> =
        paths.iter().map(|x| Entry::new(x, &digester.get_digest(x).unwrap())).collect();

    let mut factory = EntryFactory::new(digester);

    assert!(factory.send_many(paths, &mut ChannelSender::new(send.clone())).is_ok());

    let mut entries: Vec<Entry> = Vec::with_capacity(4);
    loop {
        match recv.try_recv() {
            Ok(entry) => entries.push(entry.unwrap()),
            _ => break,
        }
    }

    assert_eq!(entries, expected);
}

#[test]
fn test_entry_factory_send_many_returns_all_failed_paths() {
    let mut opener = CursorReadOpener::new();
    let paths = vec![
        "a.jpg".to_string(),
        "b.jpg".to_string(),
        "c.jpg".to_string(),
        "d.jpg".to_string(),
    ];

    for path in &paths {
        opener.add_path(path, create_cursor(path));
    }

    let (send, recv) = channel::<Result<Entry, IoError>>();
    drop(recv);

    let digester = HashDigester::new(Md5Digest::new(), opener);
    let mut factory = EntryFactory::new(digester);

    let err: EntrySendError = factory.send_many(paths.clone(), &mut ChannelSender::new(send.clone())).unwrap_err();
    let failed_paths: Vec<String> = err.failed.into_iter().map(|r| r.unwrap()).collect();

    assert_eq!(failed_paths, paths);
}

#[test]
fn created_entry_has_md5_of_content() {
    let mut opener = CursorReadOpener::new();
    opener.add_path("photo.png", b"abc".to_vec());
    let mut factory = EntryFactory::new(HashDigester::new(Md5Digest::new(), opener));
    let entry = factory.create("photo.png".to_string()).unwrap();
    assert_eq!(entry.path, "photo.png");
    assert_eq!(entry.primary_hash, "900150983cd24fb0d6963f7d28e17f72");
    assert_eq!(entry.secondary_hash, None);
}

#[test]
fn create_passes_on_a_missing_stream() {
    let opener = CursorReadOpener::new();
    let mut factory = EntryFactory::new(HashDigester::new(Md5Digest::new(), opener));
    let err = factory.create("nowhere.png".to_string()).unwrap_err();
    assert_eq!(
        err,
        IoError::Open { path: "nowhere.png".to_string(), detail: "cursor not found".to_string() }
    );
}

#[test]
fn undeliverable_errors_are_reported_in_order() {
    let mut opener = CursorReadOpener::new();
    opener.add_path("a.jpg", create_cursor("a.jpg"));
    opener.add_path("c.jpg", create_cursor("c.jpg"));
    let paths = vec!["a.jpg".to_string(), "b.jpg".to_string(), "c.jpg".to_string()];
    let (send, recv) = channel::<Result<Entry, IoError>>();
    drop(recv);
    let mut factory = EntryFactory::new(HashDigester::new(Md5Digest::new(), opener));
    let err = factory.send_many(paths, &mut ChannelSender::new(send.clone())).unwrap_err();
    assert_eq!(
        err.failed,
        vec![
            Ok("a.jpg".to_string()),
            Err(IoError::Open { path: "b.jpg".to_string(), detail: "cursor not found".to_string() }),
            Ok("c.jpg".to_string()),
        ]
    );
}

#[test]
fn send_many_of_no_paths_succeeds() {
    let (send, recv) = channel::<Result<Entry, IoError>>();
    drop(recv);
    let mut factory = EntryFactory::new(HashDigester::new(Md5Digest::new(), CursorReadOpener::new()));
    assert!(factory.send_many(Vec::new(), &mut ChannelSender::new(send.clone())).is_ok());
}

#[test]
fn failure_record_keeps_path_or_error() {
    let e = Entry::new("x.png", "h");
    assert_eq!(failure_record(Ok(e)), Ok("x.png".to_string()));
    let err = IoError::Read { path: "y.png".to_string(), detail: "d".to_string() };
    assert_eq!(failure_record(Err(err.clone())), Err(err));
}

#[test]
fn entry_renders_digests_and_path() {
    let mut e = Entry::new("dir/a.png", "h1");
    assert_eq!(e.to_string(), "primary-hash:h1 second-hash:  dir/a.png");
    e.secondary_hash = Some("h2".to_string());
    assert_eq!(e.to_string(), "primary-hash:h1 second-hash: h2 dir/a.png");
}

#[test]
fn md5_helper_matches_known_value() {
    assert_eq!(md5_of(b""), "d41d8cd98f00b204e9800998ecf8427e");
}
