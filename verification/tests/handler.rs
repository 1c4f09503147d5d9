use test_site::error::ErrorKind;
use test_site::handler::{Buf, DistHandler, DistReload, IndexFile, Probe};
use test_site::lazy_file::WriteStep;
use test_site::negative::NegativeCache;
use test_site::parse::PathIter;

fn there(_: &[u8]) -> Probe {
    Probe { exists: true, mime: None }
}

fn absent(_: &[u8]) -> Probe {
    Probe { exists: false, mime: None }
}

fn never(_: &[u8]) -> Probe {
    panic!("the file system is not to be asked")
}

#[test]
fn resolve_gives_key_and_full_path() {
    let path = PathIter::new(b"css/site.css HTTP/1.1");
    assert_eq!(
        DistReload::resolve(b"dist", path),
        Ok((b"css/site.css".to_vec(), b"dist/css/site.css".to_vec()))
    );
    assert_eq!(
        DistReload::resolve(b"dist/", path),
        Ok((b"css/site.css".to_vec(), b"dist/css/site.css".to_vec()))
    );
    assert_eq!(DistReload::resolve(b"", path), Ok((b"css/site.css".to_vec(), b"css/site.css".to_vec())));
    assert_eq!(DistReload::resolve(b"dist", PathIter::new(b"a/../b ")), Err(ErrorKind::InvalidInput));
    assert_eq!(DistReload::resolve(b"dist", PathIter::new(b" ")), Err(ErrorKind::InvalidInput));
}

#[test]
fn check_cache_refuses_known_failures() {
    let mut none: Option<NegativeCache> = None;
    assert_eq!(DistReload::check_cache(b"a", &mut none), Ok(()));
    let mut some = Some(NegativeCache::new(2));
    assert_eq!(DistReload::check_cache(b"a", &mut some), Ok(()));
    some.as_mut().unwrap().record_failure(b"a".to_vec());
    assert_eq!(DistReload::check_cache(b"a", &mut some), Err(ErrorKind::NotFound));
    assert_eq!(DistReload::check_cache(b"b", &mut some), Ok(()));
}

#[test]
fn an_entry_is_made_for_a_file_that_is_there() {
    let mut bc = Some(NegativeCache::new(2));
    let probe = Probe { exists: true, mime: Some("text/css") };
    let entry =
        DistReload::from_probe(b"a.css".to_vec(), b"dist/a.css".to_vec(), probe, &mut bc, false)
            .ok()
            .unwrap();
    assert_eq!(entry.mime(), "text/css");
    assert_eq!(entry.path(), b"dist/a.css");
    assert!(matches!(entry.file().write(), WriteStep::Load(p) if p == b"dist/a.css"));
    assert!(!bc.as_mut().unwrap().check(b"a.css"));
}

#[test]
fn an_unknown_extension_is_sent_as_bytes() {
    let mut bc = None;
    let probe = Probe { exists: true, mime: None };
    let entry = DistReload::from_probe(b"a.xyz".to_vec(), b"dist/a.xyz".to_vec(), probe, &mut bc, true)
        .ok()
        .unwrap();
    assert_eq!(entry.mime(), "application/octet-stream");
    assert!(entry.file().is_reloading());
}

#[test]
fn a_missing_file_goes_into_the_negative_cache() {
    let mut bc = Some(NegativeCache::new(2));
    let probe = Probe { exists: false, mime: Some("text/css") };
    let made = DistReload::from_probe(b"a.css".to_vec(), b"dist/a.css".to_vec(), probe, &mut bc, false);
    assert!(matches!(made, Err(ErrorKind::NotFound)));
    assert!(bc.as_mut().unwrap().check(b"a.css"));

    let mut off = None;
    let made = DistReload::from_probe(b"a.css".to_vec(), b"dist/a.css".to_vec(), probe_absent(), &mut off, false);
    assert!(matches!(made, Err(ErrorKind::NotFound)));
    assert!(off.is_none());
}

fn probe_absent() -> Probe {
    Probe { exists: false, mime: None }
}

#[test]
fn the_factory_validates_then_asks_the_cache_then_probes() {
    let mut bc = Some(NegativeCache::new(2));
    let bad = DistReload::new(b"dist", PathIter::new(b"../x "), &mut bc, false, never);
    assert!(matches!(bad, Err(ErrorKind::InvalidInput)));

    let mut asked = Vec::new();
    let missing = DistReload::new(b"dist", PathIter::new(b"a/b.js "), &mut bc, false, |p: &[u8]| {
        asked.push(p.to_vec());
        Probe { exists: false, mime: None }
    });
    assert!(matches!(missing, Err(ErrorKind::NotFound)));
    assert_eq!(asked, vec![b"dist/a/b.js".to_vec()]);

    let cached = DistReload::new(b"dist", PathIter::new(b"a/b.js "), &mut bc, false, never);
    assert!(matches!(cached, Err(ErrorKind::NotFound)));

    let made = DistReload::new(b"dist", PathIter::new(b"a/c.js "), &mut bc, false, |_: &[u8]| Probe {
        exists: true,
        mime: Some("text/javascript"),
    });
    assert_eq!(made.ok().unwrap().mime(), "text/javascript");
}

#[test]
fn a_request_for_no_path_is_the_default_resource() {
    let mut handler = DistHandler::new(b"dist".to_vec(), 8, false);
    assert_eq!(handler.try_route(b"GET / HTTP/1.1\r\n", never), Ok(None));
    assert_eq!(handler.try_route(b"GET /", never), Ok(None));
}

#[test]
fn a_request_that_is_no_get_is_invalid() {
    let mut handler = DistHandler::new(b"dist".to_vec(), 8, false);
    assert_eq!(handler.try_route(b"POST /a HTTP/1.1\r\n", never), Err(ErrorKind::InvalidInput));
    assert_eq!(handler.try_route(b"", never), Err(ErrorKind::InvalidInput));
}

#[test]
fn a_path_is_probed_once_and_then_remembered() {
    let mut handler = DistHandler::new(b"dist".to_vec(), 8, false);
    let mut asked = Vec::new();
    let id = handler
        .try_route(b"GET /js/app.js HTTP/1.1\r\n", |p: &[u8]| {
            asked.push(p.to_vec());
            Probe { exists: true, mime: Some("text/javascript") }
        })
        .unwrap()
        .unwrap();
    assert_eq!(asked, vec![b"dist/js/app.js".to_vec()]);
    let entry = handler.entry(id).unwrap();
    assert_eq!(entry.mime(), "text/javascript");
    assert_eq!(entry.path(), b"dist/js/app.js");

    assert_eq!(handler.try_route(b"GET /js/app.js HTTP/1.1\r\n", never), Ok(Some(id)));
    assert_eq!(handler.try_route(b"GET /js/app.js HTTP/1.0\r\n", never), Ok(Some(id)));
}

#[test]
fn the_probe_sees_the_whole_path_of_a_later_request() {
    let mut handler = DistHandler::new(b"dist".to_vec(), 0, false);
    let first = handler.try_route(b"GET /js/app.js ", there).unwrap().unwrap();
    let mut asked = Vec::new();
    let second = handler
        .try_route(b"GET /js/lib.js ", |p: &[u8]| {
            asked.push(p.to_vec());
            Probe { exists: true, mime: None }
        })
        .unwrap()
        .unwrap();
    assert_eq!(asked, vec![b"dist/js/lib.js".to_vec()]);
    assert!(first != second);
    assert_eq!(handler.entry(first).unwrap().path(), b"dist/js/app.js");
    assert_eq!(handler.entry(second).unwrap().path(), b"dist/js/lib.js");
}

#[test]
fn a_missing_file_is_asked_for_once_with_a_negative_cache() {
    let mut handler = DistHandler::new(b"dist".to_vec(), 8, false);
    assert_eq!(handler.try_route(b"GET /none.html HTTP/1.1", absent), Err(ErrorKind::NotFound));
    assert_eq!(handler.try_route(b"GET /none.html HTTP/1.1", never), Err(ErrorKind::NotFound));
}

#[test]
fn a_missing_file_is_asked_for_again_without_a_negative_cache() {
    let mut handler = DistHandler::new(b"dist".to_vec(), 0, false);
    assert_eq!(handler.try_route(b"GET /none.html HTTP/1.1", absent), Err(ErrorKind::NotFound));
    let mut asked = 0;
    let again = handler.try_route(b"GET /none.html HTTP/1.1", |_: &[u8]| {
        asked += 1;
        Probe { exists: true, mime: None }
    });
    assert!(matches!(again, Ok(Some(_))));
    assert_eq!(asked, 1);
}

#[test]
fn the_negative_cache_forgets_the_least_recent_path() {
    let mut handler = DistHandler::new(b"dist".to_vec(), 2, false);
    assert_eq!(handler.try_route(b"GET /a ", absent), Err(ErrorKind::NotFound));
    assert_eq!(handler.try_route(b"GET /b ", absent), Err(ErrorKind::NotFound));
    assert_eq!(handler.try_route(b"GET /c ", absent), Err(ErrorKind::NotFound));
    assert_eq!(handler.try_route(b"GET /c ", never), Err(ErrorKind::NotFound));
    assert_eq!(handler.try_route(b"GET /b ", never), Err(ErrorKind::NotFound));
    let mut asked = 0;
    let again = handler.try_route(b"GET /a ", |_: &[u8]| {
        asked += 1;
        Probe { exists: false, mime: None }
    });
    assert_eq!(again, Err(ErrorKind::NotFound));
    assert_eq!(asked, 1);
}

#[test]
fn a_path_that_leaves_the_root_is_invalid() {
    let mut handler = DistHandler::new(b"dist".to_vec(), 8, false);
    assert_eq!(handler.try_route(b"GET /../etc/passwd HTTP/1.1", never), Err(ErrorKind::InvalidInput));
    assert_eq!(handler.try_route(b"GET /a/../b HTTP/1.1", never), Err(ErrorKind::InvalidInput));
    assert_eq!(handler.try_route(b"GET /a<b HTTP/1.1", never), Err(ErrorKind::InvalidInput));
    assert_eq!(handler.try_route(b"GET /a//b HTTP/1.1", never), Err(ErrorKind::InvalidInput));
}

#[test]
fn an_entry_loads_through_the_handler() {
    let mut handler = DistHandler::new(b"dist".to_vec(), 8, false);
    let id = handler.try_route(b"GET /a.txt ", there).unwrap().unwrap();
    assert!(matches!(handler.entry(id).unwrap().file().write(), WriteStep::Load(p) if p == b"dist/a.txt"));
    handler.finish_load(id, b"hello".to_vec());
    assert!(matches!(handler.entry(id).unwrap().file().write(), WriteStep::Send(c) if c == b"hello"));
    assert!(handler.entry(id).unwrap().file().is_loaded());
    handler.finish_load(id, b"other".to_vec());
    assert!(matches!(handler.entry(id).unwrap().file().write(), WriteStep::Send(c) if c == b"hello"));

    assert!(!handler.maybe(id, Some(10)));
    handler.replace_src(id, b"changed".to_vec());
    assert!(matches!(handler.entry(id).unwrap().file().write(), WriteStep::Send(c) if c == b"hello"));

    handler.finish_load(id + 100, b"nobody".to_vec());
    assert!(handler.entry(id + 100).is_none());
    assert!(!handler.maybe(id + 100, Some(10)));
}

#[test]
fn an_entry_reloads_through_the_handler() {
    let mut handler = DistHandler::new(b"dist".to_vec(), 8, true);
    let id = handler.try_route(b"GET /a.txt ", there).unwrap().unwrap();
    handler.finish_load(id, b"v1".to_vec());
    assert!(handler.maybe(id, Some(10)));
    handler.replace_src(id, b"version two".to_vec());
    assert!(matches!(handler.entry(id).unwrap().file().write(), WriteStep::Send(c) if c == b"version two"));
    assert!(!handler.maybe(id, Some(10)));
    assert!(!handler.maybe(id, Some(9)));
    assert!(!handler.maybe(id, None));
    assert!(handler.maybe(id, Some(11)));
    assert_eq!(handler.try_route(b"GET /a.txt ", never), Ok(Some(id)));
}

#[test]
fn the_buffer_hands_out_what_was_read() {
    let mut bytes = [0u8; 8];
    bytes[..5].copy_from_slice(b"GET /");
    let buf = Buf::new(bytes, 5);
    assert_eq!(buf.get(), b"GET /");
    assert_eq!(Buf::new(bytes, 0).get(), b"");
    assert_eq!(Buf::new(bytes, 8).get(), &bytes);
    assert_eq!(Buf::new(bytes, 100).get(), &bytes);
}

#[test]
fn the_index_file_must_be_there() {
    assert!(matches!(IndexFile::new(b"index.html".to_vec(), false, false), Err(ErrorKind::NotFound)));
    let mut index = IndexFile::new(b"index.html".to_vec(), true, true).ok().unwrap();
    assert!(matches!(index.file.write(), WriteStep::Load(p) if p == b"index.html"));
    assert_eq!(index.reload.path(), b"index.html");
    assert!(index.reload.maybe(Some(5)));
    index.file.replace_src(b"<html>".to_vec());
    assert!(matches!(index.file.write(), WriteStep::Send(c) if c == b"<html>"));
}

#[test]
fn a_request_for_a_prefix_of_a_known_path_is_not_served_its_file() {
    let mut handler = DistHandler::new(b"dist".to_vec(), 8, false);
    let long = handler.try_route(b"GET /abc HTTP/1.1", there).unwrap().unwrap();
    let mut asked = Vec::new();
    let short = handler.try_route(b"GET /ab HTTP/1.1", |p: &[u8]| {
        asked.push(p.to_vec());
        Probe { exists: true, mime: None }
    });
    let short = short.unwrap().unwrap();
    assert_eq!(asked, vec![b"dist/ab".to_vec()]);
    assert!(long != short);
    assert_eq!(handler.entry(long).unwrap().path(), b"dist/abc");
    assert_eq!(handler.entry(short).unwrap().path(), b"dist/ab");
    assert_eq!(handler.try_route(b"GET /abc HTTP/1.1", never), Ok(Some(long)));
    assert_eq!(handler.try_route(b"GET /ab HTTP/1.1", never), Ok(Some(short)));

    let missing = handler.try_route(b"GET /a HTTP/1.1", absent);
    assert_eq!(missing, Err(ErrorKind::NotFound));
    assert_eq!(handler.try_route(b"GET /abc HTTP/1.1", never), Ok(Some(long)));
    assert_eq!(handler.try_route(b"GET /ab HTTP/1.1", never), Ok(Some(short)));
}
