use kvs::KvPair;
use kvs::KvStore;
use kvs::KvsError;

fn empty_store() -> KvStore {
    KvStore::open(Vec::new()).expect("an empty image opens")
}

fn s(text: &str) -> String {
    String::from(text)
}

// A live frame for a one-byte key and one-byte value is 4 (prefix) + 1 (tag)
// + 4 + 1 (key) + 4 + 1 (value) = 15 bytes; a tombstone frame for a one-byte
// key is 4 + 1 + 4 + 1 = 10 bytes.
const LIVE_1_1: usize = 15;
const TOMB_1: usize = 10;

#[test]
fn open_empty_directory_gives_empty_store() {
    let store = empty_store();
    assert_eq!(store.log.len(), 0);
    assert_eq!(store.get(s("a")), Ok(None));
}

#[test]
fn set_writes_one_frame_and_get_returns_it() {
    let mut store = empty_store();
    store.set(s("a"), s("1")).unwrap();
    assert_eq!(store.log.len(), LIVE_1_1);
    assert_eq!(store.get(s("a")), Ok(Some(s("1"))));
}

#[test]
fn remove_appends_tombstone_and_get_returns_none() {
    let mut store = empty_store();
    store.set(s("a"), s("1")).unwrap();
    store.remove(s("a")).unwrap();
    assert_eq!(store.log.len(), LIVE_1_1 + TOMB_1);
    assert_eq!(store.get(s("a")), Ok(None));
    let reopened = KvStore::open(store.log.clone()).unwrap();
    assert_eq!(reopened.get(s("a")), Ok(None));
}

#[test]
fn get_on_never_written_key_is_none_not_error() {
    let mut store = empty_store();
    store.set(s("present"), s("x")).unwrap();
    assert_eq!(store.get(s("absent")), Ok(None));
}

#[test]
fn remove_absent_key_is_key_not_found() {
    let mut store = empty_store();
    assert_eq!(store.remove(s("a")), Err(KvsError::KeyNotFound));
    store.set(s("a"), s("1")).unwrap();
    store.remove(s("a")).unwrap();
    assert_eq!(store.remove(s("a")), Err(KvsError::KeyNotFound));
}

#[test]
fn last_writer_wins() {
    let mut store = empty_store();
    store.set(s("k"), s("v1")).unwrap();
    store.set(s("k"), s("v2")).unwrap();
    assert_eq!(store.get(s("k")), Ok(Some(s("v2"))));
}

#[test]
fn set_is_visible_until_overwritten_or_removed() {
    let mut store = empty_store();
    store.set(s("k"), s("v")).unwrap();
    store.set(s("other"), s("w")).unwrap();
    assert_eq!(store.get(s("k")), Ok(Some(s("v"))));
    store.remove(s("other")).unwrap();
    assert_eq!(store.get(s("k")), Ok(Some(s("v"))));
    store.set(s("k"), s("v2")).unwrap();
    assert_eq!(store.get(s("k")), Ok(Some(s("v2"))));
    store.remove(s("k")).unwrap();
    assert_eq!(store.get(s("k")), Ok(None));
}

#[test]
fn replay_reproduces_all_live_keys() {
    let mut store = empty_store();
    for i in 0..50 {
        store.set(format!("key{}", i), format!("value{}", i)).unwrap();
    }
    store.remove(s("key7")).unwrap();
    store.set(s("key9"), s("patched")).unwrap();
    let reopened = KvStore::open(store.log.clone()).unwrap();
    for i in 0..50 {
        assert_eq!(reopened.get(format!("key{}", i)), store.get(format!("key{}", i)));
    }
    assert_eq!(reopened.get(s("key7")), Ok(None));
    assert_eq!(reopened.get(s("key9")), Ok(Some(s("patched"))));
}

#[test]
fn compaction_keeps_gets_and_shrinks_log() {
    let mut store = empty_store();
    store.set(s("a"), s("1")).unwrap();
    store.set(s("b"), s("2")).unwrap();
    store.set(s("a"), s("3")).unwrap();
    store.remove(s("b")).unwrap();
    let before = store.log.len();
    store.compaction().unwrap();
    assert!(store.log.len() < before);
    assert_eq!(store.get(s("a")), Ok(Some(s("3"))));
    assert_eq!(store.get(s("b")), Ok(None));
    // A second compaction changes nothing observable and never grows the log.
    let after_first = store.log.len();
    store.compaction().unwrap();
    assert!(store.log.len() <= after_first);
    assert_eq!(store.get(s("a")), Ok(Some(s("3"))));
    assert_eq!(store.get(s("b")), Ok(None));
}

#[test]
fn compaction_leaves_exactly_the_live_frames() {
    let mut store = empty_store();
    store.set(s("a"), s("1")).unwrap();
    store.set(s("b"), s("2")).unwrap();
    store.set(s("a"), s("3")).unwrap();
    store.compaction().unwrap();
    // Two live records of one-byte keys and values: exactly two frames.
    assert_eq!(store.log.len(), 2 * LIVE_1_1);
    assert_eq!(store.get(s("a")), Ok(Some(s("3"))));
    assert_eq!(store.get(s("b")), Ok(Some(s("2"))));
    // The compacted image replays to the same store.
    let reopened = KvStore::open(store.log.clone()).unwrap();
    assert_eq!(reopened.get(s("a")), Ok(Some(s("3"))));
    assert_eq!(reopened.get(s("b")), Ok(Some(s("2"))));
}

#[test]
fn compaction_twice_is_a_byte_level_no_op() {
    let mut store = empty_store();
    store.set(s("a"), s("1")).unwrap();
    store.set(s("b"), s("2")).unwrap();
    store.set(s("a"), s("3")).unwrap();
    store.remove(s("b")).unwrap();
    store.compaction().unwrap();
    let image = store.log.clone();
    store.compaction().unwrap();
    assert_eq!(store.log, image);
    assert_eq!(store.get(s("a")), Ok(Some(s("3"))));
}

#[test]
fn set_points_the_index_at_the_new_frame() {
    let mut store = empty_store();
    store.set(s("a"), s("1")).unwrap();
    // One entry: payload starts right after the 4-byte prefix and spans
    // the whole encoded record.
    assert_eq!(store.index.entries.len(), 1);
    assert_eq!(store.index.entries[0].loc.start, 4);
    assert_eq!(store.index.entries[0].loc.len, LIVE_1_1 - 4);
    store.set(s("b"), s("2")).unwrap();
    assert_eq!(store.index.entries.len(), 2);
    assert_eq!(store.index.entries[1].loc.start, LIVE_1_1 + 4);
}

#[test]
fn threshold_triggers_compaction_automatically() {
    let mut store = empty_store();
    for _ in 0..(kvs::COMPACTION_THRESHOLD + 1) {
        store.set(s("a"), s("1")).unwrap();
    }
    // The run of overwrites crossed the threshold, so the log was compacted
    // down to the single live frame.
    assert_eq!(store.log.len(), LIVE_1_1);
    assert_eq!(store.get(s("a")), Ok(Some(s("1"))));
}

#[test]
fn open_rejects_truncated_length_prefix() {
    let mut store = empty_store();
    store.set(s("a"), s("1")).unwrap();
    let mut image = store.log.clone();
    image.push(0xAB);
    assert!(matches!(KvStore::open(image), Err(KvsError::UnexpectedEOF)));
}

#[test]
fn open_rejects_truncated_payload() {
    let mut store = empty_store();
    store.set(s("a"), s("1")).unwrap();
    let mut image = store.log.clone();
    image.pop();
    assert!(matches!(KvStore::open(image), Err(KvsError::UnexpectedEOF)));
}

#[test]
fn open_rejects_malformed_payload() {
    // A whole frame whose 3-byte payload starts with an unknown tag.
    let image = vec![3, 0, 0, 0, 9, 9, 9];
    assert!(matches!(KvStore::open(image), Err(KvsError::SerdeError)));
}

#[test]
fn unicode_keys_and_values_survive_replay() {
    let mut store = empty_store();
    store.set(s("cl\u{00e9}"), s("valeur \u{00e9}t\u{00e9}")).unwrap();
    store.set(s("\u{043a}\u{043b}\u{044e}\u{0447}"), s("\u{2603}")).unwrap();
    let reopened = KvStore::open(store.log.clone()).unwrap();
    assert_eq!(reopened.get(s("cl\u{00e9}")), Ok(Some(s("valeur \u{00e9}t\u{00e9}"))));
    assert_eq!(
        reopened.get(s("\u{043a}\u{043b}\u{044e}\u{0447}")),
        Ok(Some(s("\u{2603}")))
    );
}

#[test]
fn empty_key_and_value_are_ordinary_data() {
    let mut store = empty_store();
    store.set(s(""), s("")).unwrap();
    assert_eq!(store.get(s("")), Ok(Some(s(""))));
    let reopened = KvStore::open(store.log.clone()).unwrap();
    assert_eq!(reopened.get(s("")), Ok(Some(s(""))));
}

#[test]
fn error_messages_are_nonempty() {
    assert!(!KvsError::KeyNotFound.message().is_empty());
    assert!(!KvsError::UnexpectedEOF.message().is_empty());
    assert!(!KvsError::IoError.message().is_empty());
    assert!(!KvsError::SerdeError.message().is_empty());
}

#[test]
fn codec_round_trips_records() {
    let live = KvPair { key: s("alpha"), value: Some(s("beta")) };
    let bytes = kvs::encode(&live).unwrap();
    let back = kvs::decode(&bytes).unwrap();
    assert_eq!(back.key, s("alpha"));
    assert_eq!(back.value, Some(s("beta")));

    let tomb = KvPair { key: s("alpha"), value: None };
    let bytes = kvs::encode(&tomb).unwrap();
    let back = kvs::decode(&bytes).unwrap();
    assert_eq!(back.key, s("alpha"));
    assert_eq!(back.value, None);
}

#[test]
fn decode_rejects_malformed_payloads() {
    // Too short to hold a tag and a key length.
    assert!(matches!(kvs::decode(&vec![1, 0, 0]), Err(KvsError::SerdeError)));
    // Unknown tag.
    assert!(matches!(kvs::decode(&vec![7, 0, 0, 0, 0]), Err(KvsError::SerdeError)));
    // Key length prefix disagrees with the actual length.
    assert!(matches!(kvs::decode(&vec![0, 5, 0, 0, 0]), Err(KvsError::SerdeError)));
    // Key bytes are not valid UTF-8.
    assert!(matches!(
        kvs::decode(&vec![0, 1, 0, 0, 0, 0xFF]),
        Err(KvsError::SerdeError)
    ));
}
