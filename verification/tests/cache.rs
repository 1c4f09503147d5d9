use test_site::error::ErrorKind;
use test_site::lazy_file::{CachePadded, LazyFile, LazyFileInner, WriteStep};
use test_site::negative::NegativeCache;
use test_site::reload::Reload;

fn load_path(step: WriteStep) -> Option<Vec<u8>> {
    match step {
        WriteStep::Load(path) => Some(path.to_vec()),
        WriteStep::Send(_) => None,
    }
}

fn sent(step: WriteStep) -> Option<Vec<u8>> {
    match step {
        WriteStep::Send(content) => Some(content.to_vec()),
        WriteStep::Load(_) => None,
    }
}

#[test]
fn pending_swap_hands_the_path_out_once() {
    let mut inner = LazyFileInner::Pending(b"dist/a".to_vec());
    assert_eq!(inner.pending_swap(), Some(b"dist/a".to_vec()));
    assert!(matches!(inner, LazyFileInner::Ready));
    assert_eq!(inner.pending_swap(), None);
    assert!(matches!(inner, LazyFileInner::Ready));
}

#[test]
fn cache_padded_holds_its_value() {
    let padded = CachePadded(7u8);
    assert_eq!(padded.0, 7);
}

#[test]
fn a_file_that_is_not_there_is_not_found() {
    assert!(matches!(LazyFile::new(b"dist/none".to_vec(), false, false), Err(ErrorKind::NotFound)));
    assert!(matches!(LazyFile::new(b"dist/none".to_vec(), false, true), Err(ErrorKind::NotFound)));
}

#[test]
fn the_first_write_reads_and_later_writes_do_not() {
    let mut file = LazyFile::new(b"dist/a.js".to_vec(), true, false).unwrap();
    assert!(!file.is_loaded());
    assert!(!file.is_reloading());
    assert_eq!(file.content(), None);
    assert_eq!(load_path(file.write()), Some(b"dist/a.js".to_vec()));

    file.finish_load(b"let a;".to_vec());
    assert!(file.is_loaded());
    assert_eq!(sent(file.write()), Some(b"let a;".to_vec()));
    assert_eq!(sent(file.write()), Some(b"let a;".to_vec()));
    assert_eq!(file.content(), Some(b"let a;".as_slice()));
}

#[test]
fn content_that_is_there_is_not_loaded_over() {
    let mut file = LazyFile::new(b"dist/a.js".to_vec(), true, false).unwrap();
    file.finish_load(b"first".to_vec());
    file.finish_load(b"second".to_vec());
    assert_eq!(sent(file.write()), Some(b"first".to_vec()));
}

#[test]
fn an_empty_file_is_content_too() {
    let mut file = LazyFile::new(b"dist/empty".to_vec(), true, false).unwrap();
    file.finish_load(Vec::new());
    assert_eq!(sent(file.write()), Some(Vec::new()));
    assert!(file.is_loaded());
}

#[test]
fn a_reloading_file_takes_new_content_whole() {
    let mut file = LazyFile::new(b"dist/a.js".to_vec(), true, true).unwrap();
    assert!(file.is_reloading());
    file.finish_load(b"old".to_vec());
    assert!(!file.is_loaded());
    assert_eq!(sent(file.write()), Some(b"old".to_vec()));
    file.replace_src(b"a much longer new content".to_vec());
    assert_eq!(sent(file.write()), Some(b"a much longer new content".to_vec()));
    assert!(!file.is_loaded());
}

#[test]
fn replacing_the_content_of_a_pending_file_makes_it_ready() {
    let mut file = LazyFile::new(b"dist/a.js".to_vec(), true, true).unwrap();
    file.replace_src(b"early".to_vec());
    assert_eq!(sent(file.write()), Some(b"early".to_vec()));
    file.finish_load(b"late".to_vec());
    assert_eq!(sent(file.write()), Some(b"early".to_vec()));
}

#[test]
fn a_file_is_read_again_only_when_it_is_newer() {
    let mut reload = Reload::new(b"dist/a.js".to_vec());
    assert_eq!(reload.path(), b"dist/a.js");
    assert!(reload.maybe(Some(100)));
    assert!(!reload.maybe(Some(100)));
    assert!(!reload.maybe(Some(99)));
    assert!(reload.maybe(Some(101)));
    assert!(!reload.maybe(Some(101)));
}

#[test]
fn the_watermark_never_goes_back() {
    let mut reload = Reload::new(b"dist/a.js".to_vec());
    assert!(reload.maybe(Some(100)));
    assert!(!reload.maybe(Some(50)));
    assert!(!reload.maybe(Some(100)));
    assert!(!reload.maybe(Some(75)));
}

#[test]
fn a_time_that_could_not_be_had_asks_for_nothing() {
    let mut reload = Reload::new(b"dist/a.js".to_vec());
    assert!(!reload.maybe(None));
    assert!(!reload.maybe(Some(0)));
    assert!(reload.maybe(Some(1)));
    assert!(!reload.maybe(None));
    assert!(!reload.maybe(Some(1)));
}

#[test]
fn the_least_recently_used_key_leaves_a_full_cache() {
    let mut cache = NegativeCache::new(2);
    assert!(!cache.check(b"a"));
    cache.record_failure(b"a".to_vec());
    cache.record_failure(b"b".to_vec());
    cache.record_failure(b"c".to_vec());
    assert!(!cache.check(b"a"));
    assert!(cache.check(b"b"));
    assert!(cache.check(b"c"));
}

#[test]
fn checking_a_key_counts_as_using_it() {
    let mut cache = NegativeCache::new(2);
    cache.record_failure(b"a".to_vec());
    cache.record_failure(b"b".to_vec());
    assert!(cache.check(b"a"));
    cache.record_failure(b"c".to_vec());
    assert!(cache.check(b"a"));
    assert!(!cache.check(b"b"));
    assert!(cache.check(b"c"));
}

#[test]
fn recording_a_key_again_only_moves_it() {
    let mut cache = NegativeCache::new(2);
    cache.record_failure(b"a".to_vec());
    cache.record_failure(b"b".to_vec());
    cache.record_failure(b"a".to_vec());
    cache.record_failure(b"c".to_vec());
    assert!(cache.check(b"a"));
    assert!(!cache.check(b"b"));
}

#[test]
fn nine_keys_in_a_cache_of_eight() {
    let mut cache = NegativeCache::new(8);
    for i in 0..9u8 {
        cache.record_failure(vec![b'k', b'0' + i]);
    }
    assert!(!cache.check(b"k0"));
    for i in 1..9u8 {
        assert!(cache.check(&[b'k', b'0' + i]));
    }
}

#[test]
fn a_cache_of_one() {
    let mut cache = NegativeCache::new(1);
    cache.record_failure(b"a".to_vec());
    assert!(cache.check(b"a"));
    cache.record_failure(b"b".to_vec());
    assert!(!cache.check(b"a"));
    assert!(cache.check(b"b"));
}
