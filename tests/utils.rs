use crypto::digest::Digest;
use crypto::md5::Md5;

use picman::utils::{ChunkRead, CursorReadOpener, HashDigester, IoError, Md5Digest, ReadOpener};

fn create_expected_hash_and_opener(path: &str) -> (String, CursorReadOpener) {
    // use the path as file contents for testing
    let data: &[u8] = path.as_bytes();

    let mut md5 = Md5::new();
    md5.input(data);

    let mut opener = CursorReadOpener::new();
    opener.add_path(path, data.to_vec());

    (md5.result_str(), opener)
}

#[test]
fn test_hash_digester_returns_hash() {
    let path = "my/test/file-name";
    let (expected, opener) = create_expected_hash_and_opener(path);

    let mut digester = HashDigester::new(Md5Digest::new(), opener);
    assert_eq!(digester.get_digest(path).unwrap(), expected);
}

#[test]
fn test_hash_digester_resets_hash() {
    let path = "my/test/file-name";
    let (expected, opener) = create_expected_hash_and_opener(path);

    let mut digester = HashDigester::new(Md5Digest::new(), opener);
    digester.get_digest(path).unwrap();

    // This second call fails if the digest state is not reset.
    assert_eq!(digester.get_digest(path).unwrap(), expected);
}

#[test]
fn digester_reuse_gives_each_input_its_own_digest() {
    let mut opener = CursorReadOpener::new();
    opener.add_path("one", b"abc".to_vec());
    opener.add_path("two", Vec::new());
    let mut digester = HashDigester::new(Md5Digest::new(), opener);
    assert_eq!(digester.get_digest("one").unwrap(), "900150983cd24fb0d6963f7d28e17f72");
    assert_eq!(digester.get_digest("two").unwrap(), "d41d8cd98f00b204e9800998ecf8427e");
    assert_eq!(digester.get_digest("one").unwrap(), "900150983cd24fb0d6963f7d28e17f72");
}

#[test]
fn failed_call_leaves_digester_reusable() {
    let mut opener = CursorReadOpener::new();
    opener.add_path("one", b"abc".to_vec());
    let mut digester = HashDigester::new(Md5Digest::new(), opener);
    assert!(digester.get_digest("missing").is_err());
    assert_eq!(digester.get_digest("one").unwrap(), "900150983cd24fb0d6963f7d28e17f72");
}

#[test]
fn long_content_is_read_in_chunks() {
    let data: Vec<u8> = (0..20000u32).map(|i| (i % 251) as u8).collect();
    let mut md5 = Md5::new();
    md5.input(&data);
    let expected = md5.result_str();

    let mut opener = CursorReadOpener::new();
    opener.add_path("big", data.clone());
    let mut reader = opener.get_reader("big").unwrap();
    let mut sizes = Vec::new();
    loop {
        let chunk = reader.read_chunk().unwrap();
        sizes.push(chunk.len());
        if chunk.is_empty() {
            break;
        }
    }
    assert_eq!(sizes, vec![8192, 8192, 3616, 0]);

    let mut digester = HashDigester::new(Md5Digest::new(), opener);
    assert_eq!(digester.get_digest("big").unwrap(), expected);
}

#[test]
fn later_content_replaces_earlier() {
    let mut opener = CursorReadOpener::new();
    opener.add_path("p", b"first".to_vec());
    opener.add_path("p", b"abc".to_vec());
    let mut digester = HashDigester::new(Md5Digest::new(), opener);
    assert_eq!(digester.get_digest("p").unwrap(), "900150983cd24fb0d6963f7d28e17f72");
}

#[test]
fn missing_cursor_is_an_open_error() {
    let mut opener = CursorReadOpener::new();
    match opener.get_reader("nope") {
        Err(e) => assert_eq!(
            e,
            IoError::Open { path: "nope".to_string(), detail: "cursor not found".to_string() }
        ),
        Ok(_) => panic!("a missing path must not open"),
    }
}

#[test]
fn sha256_digester_gives_sha256() {
    let mut opener = CursorReadOpener::new();
    opener.add_path("one", b"abc".to_vec());
    let mut digester = HashDigester::new(picman::utils::Sha256Digest::new(), opener);
    assert_eq!(
        digester.get_digest("one").unwrap(),
        "ba7816bf8f01cfea414140de5dae2223b00361a396177a9cb410ff61f20015ad"
    );
}

/// Hands out one chunk, then fails.
struct BrokenStream {
    reads: usize,
}

impl ChunkRead for BrokenStream {
    fn read_chunk(&mut self) -> Result<Vec<u8>, IoError> {
        self.reads += 1;
        if self.reads == 1 {
            Ok(b"abc".to_vec())
        } else {
            Err(IoError::Read { path: "broken".to_string(), detail: "device gone".to_string() })
        }
    }
}

struct BrokenSource;

impl ReadOpener for BrokenSource {
    type Readable = BrokenStream;

    fn get_reader(&mut self, _path: &str) -> Result<BrokenStream, IoError> {
        Ok(BrokenStream { reads: 0 })
    }
}

#[test]
fn read_error_is_passed_on_unchanged() {
    let mut digester = HashDigester::new(Md5Digest::new(), BrokenSource);
    assert_eq!(
        digester.get_digest("broken"),
        Err(IoError::Read { path: "broken".to_string(), detail: "device gone".to_string() })
    );
}
