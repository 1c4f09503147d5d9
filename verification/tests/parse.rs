use test_site::parse::{
    common_prefix, get_req_path, take_ident, take_path_seg, take_until, ParseError, PathIter,
};
use test_site::scan::position_of;

fn text(bytes: &[u8]) -> &str {
    core::str::from_utf8(bytes).unwrap()
}

#[test]
fn smoke_p_iter() {
    let basic = b"hello/world/goodbyte/world.js remainder";

    let mut iter = PathIter::new(basic);
    assert_eq!(text(iter.next().unwrap()), "hello");
    assert_eq!(text(iter.next().unwrap()), "world");
    assert_eq!(text(iter.next().unwrap()), "goodbyte");
    assert_eq!(text(iter.next().unwrap()), "world.js");
    assert_eq!(iter.next(), None);

    assert_eq!(text(iter.remainder()), " remainder");
}

#[test]
fn long_test() {
    let first = b"heeeeeeeeeeeeeeeeeeeeeeeeeeeeeeeeeeeeeeeeeeeeeellllllllllllllllllllllllllllllllllllllllllllllllllllllllllllllllllllllllllllllloooooooooooooooooooooooooooooooooooooooooooooooooooooooooooooooo";

    let mut to_parse = first.to_vec();
    to_parse.extend_from_slice(b"/world.txt/");

    let mut iter = PathIter::new(to_parse.as_slice());
    assert!(iter.peek_utf8().is_some());

    assert_eq!(text(iter.next().unwrap()), text(first.as_slice()));
    assert_eq!(text(iter.next().unwrap()), "world.txt");
    assert_eq!(iter.next(), None);
}

#[test]
fn parsed_prefix_excludes_the_terminator() {
    let basic = b"hello/world/goodbyte/world.js remainder";
    let mut iter = PathIter::new(basic);
    assert_eq!(iter.get_parsed(), b"");
    while iter.next().is_some() {}
    assert_eq!(text(iter.get_parsed()), "hello/world/goodbyte/world.js");
    assert_eq!(text(iter.remainder()), " remainder");
    assert!(iter.is_complete());
}

#[test]
fn parsed_and_remainder_make_up_the_input() {
    let input = b"a/bb/ccc tail";
    let mut iter = PathIter::new(input);
    loop {
        let mut whole = iter.get_parsed().to_vec();
        whole.extend_from_slice(iter.remainder());
        assert_eq!(whole.as_slice(), input.as_slice());
        if iter.next().is_none() {
            break;
        }
    }
}

#[test]
fn more_than_256_bytes_in_the_first_segment() {
    let first = vec![b'x'; 300];
    let mut to_parse = first.clone();
    to_parse.extend_from_slice(b"/world.txt/");
    let mut iter = PathIter::new(to_parse.as_slice());
    assert_eq!(iter.next().unwrap(), first.as_slice());
    assert_eq!(iter.next().unwrap(), b"world.txt");
    assert_eq!(iter.next(), None);
}

#[test]
fn scalar_and_vector_scans_agree() {
    for len in 0..120usize {
        let mut raw = vec![b'a'; len];
        raw.extend_from_slice(b"/rest");
        let (rem, seg) = take_until(raw.as_slice(), b'/').unwrap();
        assert_eq!(seg.len(), len);
        assert_eq!(rem, b"/rest");
        assert_eq!(position_of(raw.as_slice(), 0, raw.len(), b'/', b' ', b' '), Some(len));
    }
}

#[test]
fn long_segment_ends_at_a_space() {
    let mut raw = vec![b'n'; 60];
    raw.extend_from_slice(b" HTTP/1.1");
    let mut iter = PathIter::new(raw.as_slice());
    assert_eq!(iter.next().unwrap().len(), 60);
    assert_eq!(iter.next(), None);
    assert_eq!(iter.remainder(), b" HTTP/1.1");
}

#[test]
fn take_until_leaves_the_stop_byte() {
    let (rem, seg) = take_until(b"abc/def", b'/').unwrap();
    assert_eq!((rem, seg), (b"/def".as_slice(), b"abc".as_slice()));
    let (rem, seg) = take_until(b"ab cd", b'/').unwrap();
    assert_eq!((rem, seg), (b" cd".as_slice(), b"ab".as_slice()));
    let (rem, seg) = take_until(b"/x", b'/').unwrap();
    assert_eq!((rem, seg), (b"/x".as_slice(), b"".as_slice()));
}

#[test]
fn take_until_without_a_stop_is_end_of_input() {
    assert!(matches!(take_until(b"abc", b'/'), Err(ParseError::EndOfInput)));
    assert!(matches!(take_until(b"", b'/'), Err(ParseError::EndOfInput)));
    let long = vec![b'a'; 100];
    assert!(matches!(take_until(long.as_slice(), b'/'), Err(ParseError::EndOfInput)));
    let middling = vec![b'a'; 40];
    assert!(matches!(take_until(middling.as_slice(), b'/'), Err(ParseError::EndOfInput)));
}

#[test]
fn a_tilde_does_not_end_a_segment() {
    let (rem, seg) = take_until(b"a~b/c", b'/').unwrap();
    assert_eq!((rem, seg), (b"/c".as_slice(), b"a~b".as_slice()));
}

#[test]
fn take_path_seg_skips_one_slash() {
    let (rem, seg) = take_path_seg(b"/abc/def").unwrap();
    assert_eq!((rem, seg), (b"/def".as_slice(), b"abc".as_slice()));
    let (rem, seg) = take_path_seg(b"abc def").unwrap();
    assert_eq!((rem, seg), (b" def".as_slice(), b"abc".as_slice()));
    let (rem, seg) = take_path_seg(b"//x").unwrap();
    assert_eq!((rem, seg), (b"/x".as_slice(), b"".as_slice()));
    assert!(matches!(take_path_seg(b"/abc"), Err(ParseError::EndOfInput)));
}

#[test]
fn take_ident_wants_a_byte_and_a_stop() {
    let (rem, seg) = take_ident(b"abc def").unwrap();
    assert_eq!((rem, seg), (b" def".as_slice(), b"abc".as_slice()));
    let (rem, seg) = take_ident(b"abc\r\n").unwrap();
    assert_eq!((rem, seg), (b"\r\n".as_slice(), b"abc".as_slice()));
    match take_ident(b" abc") {
        Err(ParseError::Expected { expected, found }) => {
            assert_eq!(expected, "ident");
            assert_eq!(found, b" abc");
        }
        other => panic!("{:?}", other),
    }
    assert!(matches!(take_ident(b"abc"), Err(ParseError::EndOfInput)));
    assert!(matches!(take_ident(b""), Err(ParseError::EndOfInput)));
    let mut long = vec![b'i'; 70];
    assert!(matches!(take_ident(long.as_slice()), Err(ParseError::EndOfInput)));
    long.push(b'\r');
    let (rem, seg) = take_ident(long.as_slice()).unwrap();
    assert_eq!((rem, seg.len()), (b"\r".as_slice(), 70));
}

#[test]
fn a_path_that_ends_in_a_carriage_return() {
    let mut iter = PathIter::new(b"abc\r\n");
    assert_eq!(iter.next().unwrap(), b"abc");
    assert_eq!(iter.next(), None);
    assert_eq!(iter.remainder(), b"\r\n");
}

#[test]
fn an_unterminated_path_yields_nothing() {
    let mut iter = PathIter::new(b"abc");
    assert!(matches!(iter.parse_next(), Err(ParseError::Complete)));
    assert_eq!(iter.next(), None);
    assert!(iter.is_complete());
    assert_eq!(iter.remainder(), b"abc");
}

#[test]
fn empty_segments_between_slashes() {
    let mut iter = PathIter::new(b"a//b ");
    assert_eq!(iter.next().unwrap(), b"a");
    assert_eq!(iter.next().unwrap(), b"");
    assert_eq!(iter.next().unwrap(), b"b");
    assert_eq!(iter.next(), None);
}

#[test]
fn parse_next_does_not_move() {
    let iter = PathIter::new(b"one/two ");
    let (rem, seg) = iter.parse_next().unwrap();
    assert_eq!((rem, seg), (b"/two ".as_slice(), b"one".as_slice()));
    assert_eq!(iter.remainder(), b"one/two ");
    assert!(!iter.is_complete());
}

#[test]
fn a_complete_cursor_stays_complete() {
    let mut iter = PathIter::new(b" x/y ");
    assert_eq!(iter.next(), None);
    assert!(iter.is_complete());
    iter.take(b' ');
    assert_eq!(iter.remainder(), b"x/y ");
    assert_eq!(iter.next(), None);
    assert!(iter.peek_complete());
    assert!(matches!(iter.parse_next(), Err(ParseError::Complete)));
}

#[test]
fn peeking() {
    let iter = PathIter::new(b"/ab");
    assert_eq!(iter.peek(), Some(b'/'));
    assert!(iter.next_is(b'/'));
    assert!(!iter.next_is(b'a'));
    assert_eq!(iter.peek_ref(), Some(b"/".as_slice()));
    assert_eq!(iter.peek_utf8(), Some("/"));
    assert!(!iter.next_known_terminal());
    assert!(!iter.peek_complete());

    let empty = PathIter::new(b"");
    assert_eq!(empty.peek(), None);
    assert_eq!(empty.peek_ref(), None);
    assert_eq!(empty.peek_utf8(), None);
    assert!(empty.next_known_terminal());
    assert!(empty.peek_complete());
    assert!(!empty.is_complete());

    let space = PathIter::new(b" x");
    assert!(space.next_known_terminal());

    let high = [0xffu8, b'a'];
    let not_text = PathIter::new(&high);
    assert_eq!(not_text.peek(), Some(0xff));
    assert_eq!(not_text.peek_utf8(), None);
}

#[test]
fn take_passes_one_matching_byte() {
    let mut iter = PathIter::new(b"//a");
    iter.take(b'x');
    assert_eq!(iter.remainder(), b"//a");
    iter.take(b'/');
    assert_eq!(iter.remainder(), b"/a");
    assert_eq!(iter.get_parsed(), b"/");
}

#[test]
fn next_is_opt_looks_behind_a_slash() {
    let iter = PathIter::new(b"/ab");
    assert!(iter.next_is_opt(Some(&b'a')));
    assert!(!iter.next_is_opt(Some(&b'/')));
    assert!(!iter.next_is_opt(Some(&b'b')));
    assert!(!iter.next_is_opt(None));
    let plain = PathIter::new(b"ab");
    assert!(plain.next_is_opt(Some(&b'a')));
    assert!(!plain.next_is_opt(Some(&b'b')));
    let lone = PathIter::new(b"/");
    assert!(!lone.next_is_opt(Some(&b'/')));
    let empty = PathIter::new(b"");
    assert!(!empty.next_is_opt(Some(&b'a')));
}

#[test]
fn move_match_takes_a_whole_segment_and_its_slash() {
    let mut iter = PathIter::new(b"abc/def ");
    assert_eq!(iter.move_match(b"abc"), b"abc");
    assert_eq!(iter.remainder(), b"def ");
}

#[test]
fn move_match_stops_where_the_bytes_differ() {
    let mut iter = PathIter::new(b"abd ");
    assert_eq!(iter.move_match(b"abc"), b"ab");
    assert_eq!(iter.remainder(), b"d ");

    let mut other = PathIter::new(b"xyz ");
    assert_eq!(other.move_match(b"abc"), b"");
    assert_eq!(other.remainder(), b"xyz ");
}

#[test]
fn move_match_stops_at_the_end_of_the_candidate() {
    let mut iter = PathIter::new(b"abcdef/g ");
    assert_eq!(iter.move_match(b"abc"), b"abc");
    assert_eq!(iter.remainder(), b"def/g ");
}

#[test]
fn move_match_runs_over_segments() {
    let mut iter = PathIter::new(b"a/b ");
    assert_eq!(iter.move_match(b"ab"), b"ab");
    assert_eq!(iter.remainder(), b" ");
    assert_eq!(iter.get_parsed(), b"a/b");

    let mut early = PathIter::new(b"a/x ");
    assert_eq!(early.move_match(b"ab"), b"a");
    assert_eq!(early.remainder(), b"x ");
}

#[test]
fn move_match_stops_at_the_end_of_the_path() {
    let mut iter = PathIter::new(b"ab rest");
    assert_eq!(iter.move_match(b"abc"), b"ab");
    assert_eq!(iter.remainder(), b" rest");
    assert!(iter.peek_complete());
}

#[test]
fn move_match_with_an_empty_candidate_moves_nothing() {
    let mut iter = PathIter::new(b"/abc ");
    assert_eq!(iter.move_match(b""), b"");
    assert_eq!(iter.remainder(), b"/abc ");
}

#[test]
fn move_match_behind_a_leading_slash() {
    let mut iter = PathIter::new(b"/abc ");
    assert_eq!(iter.move_match(b"abc"), b"abc");
    assert_eq!(iter.remainder(), b" ");

    let mut stuck = PathIter::new(b"//abc ");
    assert_eq!(stuck.move_match(b"abc"), b"");
    assert_eq!(stuck.remainder(), b"/abc ");
}

#[test]
fn common_prefix_counts_agreeing_bytes() {
    assert_eq!(common_prefix(b"abc", b"abd"), 2);
    assert_eq!(common_prefix(b"abc", b"abcde"), 3);
    assert_eq!(common_prefix(b"", b"abc"), 0);
    assert_eq!(common_prefix(b"x", b"y"), 0);
}

#[test]
fn request_line_must_start_with_get() {
    let iter = get_req_path(b"GET /a/b HTTP/1.1").unwrap();
    assert_eq!(iter.remainder(), b"a/b HTTP/1.1");
    assert_eq!(iter.get_parsed(), b"");
    assert!(!iter.is_complete());

    let root = get_req_path(b"GET / HTTP/1.1").unwrap();
    assert!(root.next_known_terminal());

    match get_req_path(b"POST /a") {
        Err(ParseError::Expected { expected, found }) => {
            assert_eq!(expected, "GET /");
            assert_eq!(found, b"POST /a");
        }
        _ => panic!("a request that is no GET"),
    }
    assert!(get_req_path(b"GET").is_err());
    assert!(get_req_path(b"get /a").is_err());
}

#[test]
fn a_parse_error_as_text() {
    assert_eq!(ParseError::EndOfInput.text(), "ParseError {{ EndOfInput }}");
    assert_eq!(ParseError::Complete.text(), "ParseError {{ Complete }}");
    let expected = ParseError::Expected { expected: "GET /", found: b"PUT" };
    assert_eq!(expected.text(), "ParseError { expected: GET /, found: [80, 85, 84] }");
    match get_req_path(b"PO") {
        Err(e) => assert_eq!(e.text(), "ParseError { expected: GET /, found: [80, 79] }"),
        Ok(_) => panic!("a request that is no GET"),
    }
}
