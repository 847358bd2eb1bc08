use picman::entry::Entry;
use picman::pipeline::{partition_paths, ConsumerAction, ConsumerEvent, EntryConsumer};
use picman::utils::IoError;

fn names(n: usize) -> Vec<String> {
    (0..n).map(|i| format!("file-{}.png", i)).collect()
}

#[test]
fn partition_gives_last_chunk_the_remainder() {
    let paths = names(10);
    let chunks = partition_paths(&paths, 3);
    assert_eq!(chunks.len(), 3);
    assert_eq!(chunks[0], paths[0..3].to_vec());
    assert_eq!(chunks[1], paths[3..6].to_vec());
    assert_eq!(chunks[2], paths[6..10].to_vec());
}

#[test]
fn partition_with_more_workers_than_paths() {
    let paths = names(2);
    let chunks = partition_paths(&paths, 4);
    assert_eq!(chunks.len(), 4);
    assert!(chunks[0].is_empty() && chunks[1].is_empty() && chunks[2].is_empty());
    assert_eq!(chunks[3], paths);
}

#[test]
fn partition_even_split() {
    let paths = names(8);
    let chunks = partition_paths(&paths, 4);
    for (i, c) in chunks.iter().enumerate() {
        assert_eq!(c, &paths[2 * i..2 * i + 2].to_vec());
    }
}

#[test]
fn consumer_finishes_when_all_paths_are_accounted_for() {
    let mut consumer = EntryConsumer::new(3);
    assert!(!consumer.is_complete());
    assert_eq!(consumer.step(ConsumerEvent::Received(Ok(Entry::new("a", "h")))), ConsumerAction::Wait);
    let err = IoError::Read { path: "b".to_string(), detail: "d".to_string() };
    assert_eq!(consumer.step(ConsumerEvent::Received(Err(err.clone()))), ConsumerAction::Wait);
    assert_eq!(consumer.step(ConsumerEvent::Received(Ok(Entry::new("c", "h")))), ConsumerAction::Finish);
    assert!(consumer.is_complete());
    let (entries, failures) = consumer.into_parts();
    assert_eq!(entries, vec![Entry::new("a", "h"), Entry::new("c", "h")]);
    assert_eq!(failures, vec![err]);
}

#[test]
fn consumer_finishes_when_senders_are_gone() {
    let mut consumer = EntryConsumer::new(5);
    assert_eq!(consumer.step(ConsumerEvent::Disconnected), ConsumerAction::Finish);
    let (entries, failures) = consumer.into_parts();
    assert!(entries.is_empty() && failures.is_empty());
}

#[test]
fn consumer_of_no_paths_is_complete_at_once() {
    let consumer = EntryConsumer::new(0);
    assert!(consumer.is_complete());
}
