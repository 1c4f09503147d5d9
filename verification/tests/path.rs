use test_site::error::ErrorKind;
use test_site::parse::PathIter;
use test_site::path::{check_segment, extend_dist};

#[test]
fn rejects_dot_segments() {
    assert_eq!(check_segment(b".."), None);
    assert_eq!(check_segment(b"."), None);
    assert_eq!(check_segment(b""), None);
}

#[test]
fn rejects_illegal_bytes() {
    assert_eq!(check_segment(b"a<b"), None);
    assert_eq!(check_segment(b"a>b"), None);
    assert_eq!(check_segment(b"a\0b"), None);
    assert_eq!(check_segment(b"a b"), None);
    assert_eq!(check_segment(b"a/b"), None);
    assert_eq!(check_segment(b"a~b"), None);
    assert_eq!(check_segment("h\u{e9}".as_bytes()), None);
}

#[test]
fn accepts_a_plain_file_name() {
    assert_eq!(check_segment(b"valid-file_name.js"), Some(b"valid-file_name.js".as_slice()));
    assert_eq!(check_segment(b"a"), Some(b"a".as_slice()));
    assert_eq!(check_segment(b"..."), Some(b"...".as_slice()));
    assert_eq!(check_segment(b"AZaz09-._"), Some(b"AZaz09-._".as_slice()));
}

#[test]
fn every_byte_is_judged_alike_in_short_and_long_segments() {
    for b in 0..=255u8 {
        let legal = b.is_ascii_alphanumeric() || b == b'-' || b == b'.' || b == b'_';
        let short = [b'a', b];
        assert_eq!(check_segment(&short).is_some(), legal, "byte {} in a short segment", b);
        for at in [0usize, 7, 15, 16, 30, 39] {
            let mut long = vec![b'a'; 40];
            long[at] = b;
            assert_eq!(check_segment(&long).is_some(), legal, "byte {} at {}", b, at);
        }
    }
}

#[test]
fn segments_around_the_vector_width() {
    for len in 1..40usize {
        let good = vec![b'z'; len];
        assert_eq!(check_segment(&good), Some(good.as_slice()));
        let mut bad = good.clone();
        bad[len - 1] = b'<';
        assert_eq!(check_segment(&bad), None);
    }
    let dots = vec![b'.'; 16];
    assert_eq!(check_segment(&dots), Some(dots.as_slice()));
}

#[test]
fn extends_the_root_by_each_segment() {
    let path = PathIter::new(b"a/b/valid-file_name.js HTTP/1.1");
    assert_eq!(extend_dist(b"dist".to_vec(), path), Ok(b"dist/a/b/valid-file_name.js".to_vec()));
}

#[test]
fn a_root_that_ends_in_a_slash_gets_no_second_one() {
    let path = PathIter::new(b"a/b ");
    assert_eq!(extend_dist(b"/srv/".to_vec(), path), Ok(b"/srv/a/b".to_vec()));
    assert_eq!(extend_dist(Vec::new(), path), Ok(b"a/b".to_vec()));
}

#[test]
fn rejects_traversal() {
    let path = PathIter::new(b"a/../b ");
    assert_eq!(extend_dist(b"dist".to_vec(), path), Err(ErrorKind::InvalidInput));
    let up = PathIter::new(b"../secret ");
    assert_eq!(extend_dist(b"dist".to_vec(), up), Err(ErrorKind::InvalidInput));
    let here = PathIter::new(b"./a ");
    assert_eq!(extend_dist(b"dist".to_vec(), here), Err(ErrorKind::InvalidInput));
}

#[test]
fn rejects_a_path_without_segments() {
    assert_eq!(extend_dist(b"dist".to_vec(), PathIter::new(b" ")), Err(ErrorKind::InvalidInput));
    assert_eq!(extend_dist(b"dist".to_vec(), PathIter::new(b"")), Err(ErrorKind::InvalidInput));
    let mut done = PathIter::new(b" a/b ");
    assert_eq!(done.next(), None);
    done.take(b' ');
    assert_eq!(extend_dist(b"dist".to_vec(), done), Err(ErrorKind::InvalidInput));
}

#[test]
fn rejects_an_empty_segment() {
    let path = PathIter::new(b"a//b ");
    assert_eq!(extend_dist(b"dist".to_vec(), path), Err(ErrorKind::InvalidInput));
}

#[test]
fn rejects_an_illegal_segment_late_in_the_path() {
    let path = PathIter::new(b"a/b/c<d ");
    assert_eq!(extend_dist(b"dist".to_vec(), path), Err(ErrorKind::InvalidInput));
}
