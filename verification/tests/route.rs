use bumpalo::Bump;
use test_site::parse::PathIter;
use test_site::route::{Acquired, Tree};

fn get(tree: &mut Tree<u32>, path: &[u8], value: u32, calls: &mut u32) -> Result<u32, &'static str> {
    tree.get_or_try_create(PathIter::new(path), |_| {
        *calls += 1;
        Ok(value)
    })
    .map(|v| *v)
}

#[test]
fn an_empty_trie_has_a_bare_root() {
    let bump = Bump::new();
    let tree: Tree<u32> = Tree::new(&bump);
    assert_eq!(tree.len(), 1);
    let root = tree.node(0).unwrap();
    assert_eq!(root.prefix(), b"");
    assert_eq!(root.children(), &[] as &[usize]);
    assert_eq!(root.value(), None);
    assert_eq!(root.priority(), 0);
    assert!(tree.node(1).is_none());
    assert_eq!(tree.value(0), None);
    assert_eq!(tree.value(7), None);
}

#[test]
fn the_factory_runs_once_per_path() {
    let bump = Bump::new();
    let mut tree: Tree<u32> = Tree::new(&bump);
    let mut calls = 0;
    assert_eq!(get(&mut tree, b"a/b ", 7, &mut calls), Ok(7));
    assert_eq!(get(&mut tree, b"a/b ", 8, &mut calls), Ok(7));
    assert_eq!(calls, 1);
}

#[test]
fn the_first_path_becomes_the_root_and_its_chain() {
    let bump = Bump::new();
    let mut tree: Tree<u32> = Tree::new(&bump);
    let mut calls = 0;
    assert_eq!(get(&mut tree, b"a/b/c ", 1, &mut calls), Ok(1));
    assert_eq!(tree.len(), 3);
    assert_eq!(tree.node(0).unwrap().prefix(), b"a");
    assert_eq!(tree.node(0).unwrap().children(), &[1usize]);
    assert_eq!(tree.node(0).unwrap().value(), None);
    assert_eq!(tree.node(1).unwrap().prefix(), b"b");
    assert_eq!(tree.node(1).unwrap().children(), &[2usize]);
    assert_eq!(tree.node(1).unwrap().value(), None);
    assert_eq!(tree.node(2).unwrap().prefix(), b"c");
    assert_eq!(tree.node(2).unwrap().children(), &[] as &[usize]);
    assert_eq!(tree.node(2).unwrap().value(), Some(&1));
}

#[test]
fn a_diverging_path_splits_the_node() {
    let bump = Bump::new();
    let mut tree: Tree<u32> = Tree::new(&bump);
    let mut calls = 0;
    assert_eq!(get(&mut tree, b"abc ", 1, &mut calls), Ok(1));
    assert_eq!(get(&mut tree, b"abd ", 2, &mut calls), Ok(2));
    assert_eq!(calls, 2);

    let root = tree.node(0).unwrap();
    assert_eq!(root.prefix(), b"ab");
    assert_eq!(root.value(), None);
    assert_eq!(root.children().len(), 2);
    let c = tree.node(root.children()[0]).unwrap();
    let d = tree.node(root.children()[1]).unwrap();
    assert_eq!(c.prefix(), b"c");
    assert_eq!(c.value(), Some(&1));
    assert_eq!(d.prefix(), b"d");
    assert_eq!(d.value(), Some(&2));
    assert!(c.children().is_empty());
    assert!(d.children().is_empty());

    assert_eq!(get(&mut tree, b"abc ", 9, &mut calls), Ok(1));
    assert_eq!(get(&mut tree, b"abd ", 9, &mut calls), Ok(2));
    assert_eq!(calls, 2);
}

#[test]
fn a_longer_path_leaves_the_shorter_one_alone() {
    let bump = Bump::new();
    let mut tree: Tree<u32> = Tree::new(&bump);
    let mut calls = 0;
    assert_eq!(get(&mut tree, b"a/b ", 1, &mut calls), Ok(1));
    assert_eq!(get(&mut tree, b"a/b/c ", 2, &mut calls), Ok(2));
    assert_eq!(calls, 2);

    let b = tree.node(1).unwrap();
    assert_eq!(b.prefix(), b"b");
    assert_eq!(b.value(), Some(&1));
    assert_eq!(b.children().len(), 1);
    let c = tree.node(b.children()[0]).unwrap();
    assert_eq!(c.prefix(), b"c");
    assert_eq!(c.value(), Some(&2));

    assert_eq!(get(&mut tree, b"a/b ", 9, &mut calls), Ok(1));
    assert_eq!(get(&mut tree, b"a/b/c ", 9, &mut calls), Ok(2));
    assert_eq!(calls, 2);
}

#[test]
fn a_split_keeps_children_and_value_below_the_new_node() {
    let bump = Bump::new();
    let mut tree: Tree<u32> = Tree::new(&bump);
    let mut calls = 0;
    assert_eq!(get(&mut tree, b"abc/x ", 1, &mut calls), Ok(1));
    assert_eq!(get(&mut tree, b"abc ", 2, &mut calls), Ok(2));
    assert_eq!(get(&mut tree, b"abd ", 3, &mut calls), Ok(3));
    let root = tree.node(0).unwrap();
    assert_eq!(root.prefix(), b"ab");
    assert_eq!(root.value(), None);
    let tail = tree.node(root.children()[0]).unwrap();
    assert_eq!(tail.prefix(), b"c");
    assert_eq!(tail.value(), Some(&2));
    assert_eq!(tail.children(), &[1usize]);
    assert_eq!(tree.node(1).unwrap().prefix(), b"x");
    assert_eq!(tree.node(1).unwrap().value(), Some(&1));
    assert_eq!(get(&mut tree, b"abc/x ", 9, &mut calls), Ok(1));
    assert_eq!(calls, 3);
}

#[test]
fn a_path_that_shares_nothing_splits_at_zero() {
    let bump = Bump::new();
    let mut tree: Tree<u32> = Tree::new(&bump);
    let mut calls = 0;
    assert_eq!(get(&mut tree, b"abc ", 1, &mut calls), Ok(1));
    assert_eq!(get(&mut tree, b"xyz ", 2, &mut calls), Ok(2));
    let root = tree.node(0).unwrap();
    assert_eq!(root.prefix(), b"");
    assert_eq!(root.children().len(), 2);
    assert_eq!(tree.node(root.children()[0]).unwrap().prefix(), b"abc");
    assert_eq!(tree.node(root.children()[1]).unwrap().prefix(), b"xyz");
    assert_eq!(get(&mut tree, b"abc ", 9, &mut calls), Ok(1));
    assert_eq!(get(&mut tree, b"xyz ", 9, &mut calls), Ok(2));
    assert_eq!(calls, 2);
}

#[test]
fn a_failing_factory_stores_nothing() {
    let bump = Bump::new();
    let mut tree: Tree<u32> = Tree::new(&bump);
    let failed: Result<&u32, &str> = tree.get_or_try_create(PathIter::new(b"a/b "), |_| Err("no"));
    assert_eq!(failed, Err("no"));
    assert_eq!(tree.len(), 1);
    assert_eq!(tree.node(0).unwrap().prefix(), b"");
    let mut calls = 0;
    assert_eq!(get(&mut tree, b"a/b ", 5, &mut calls), Ok(5));
    assert_eq!(calls, 1);

    let again: Result<&u32, &str> = tree.get_or_try_create(PathIter::new(b"a/c "), |_| Err("no"));
    assert_eq!(again, Err("no"));
    assert_eq!(tree.len(), 2);
    assert_eq!(get(&mut tree, b"a/c ", 6, &mut calls), Ok(6));
    assert_eq!(calls, 2);
    assert_eq!(tree.len(), 3);
}

#[test]
fn the_factory_gets_the_path_as_the_lookup_left_it() {
    let bump = Bump::new();
    let mut tree: Tree<u32> = Tree::new(&bump);
    let first: Result<&u32, ()> = tree.get_or_try_create(PathIter::new(b"a/b tail"), |rem| {
        assert_eq!(rem.remainder(), b"a/b tail");
        Ok(1)
    });
    assert_eq!(first, Ok(&1));
    let second: Result<&u32, ()> = tree.get_or_try_create(PathIter::new(b"a/b/c/d tail"), |rem| {
        assert_eq!(rem.get_parsed(), b"a/b/");
        assert_eq!(rem.remainder(), b"c/d tail");
        Ok(2)
    });
    assert_eq!(second, Ok(&2));
    let third: Result<&u32, ()> = tree.get_or_try_create(PathIter::new(b"a/bx tail"), |rem| {
        assert_eq!(rem.remainder(), b"x tail");
        Ok(3)
    });
    assert_eq!(third, Ok(&3));
}

#[test]
fn a_path_that_ends_inside_a_label_gets_a_value_of_its_own() {
    let bump = Bump::new();
    let mut tree: Tree<u32> = Tree::new(&bump);
    let mut calls = 0;
    assert_eq!(get(&mut tree, b"abc ", 1, &mut calls), Ok(1));
    assert_eq!(get(&mut tree, b"ab ", 2, &mut calls), Ok(2));
    assert_eq!(calls, 2);
    assert_eq!(tree.len(), 2);
    let root = tree.node(0).unwrap();
    assert_eq!(root.prefix(), b"ab");
    assert_eq!(root.value(), Some(&2));
    assert_eq!(root.children(), &[1usize]);
    let tail = tree.node(1).unwrap();
    assert_eq!(tail.prefix(), b"c");
    assert_eq!(tail.value(), Some(&1));
    assert_eq!(get(&mut tree, b"abc ", 9, &mut calls), Ok(1));
    assert_eq!(get(&mut tree, b"ab ", 9, &mut calls), Ok(2));
    assert_eq!(calls, 2);
}

#[test]
fn a_strict_prefix_of_a_stored_path_is_not_served_its_value() {
    for (long, short) in [
        (b"abcdef ".as_slice(), b"abc ".as_slice()),
        (b"a/bc ".as_slice(), b"a/b ".as_slice()),
        (b"dir/file.js ".as_slice(), b"dir/file ".as_slice()),
    ] {
        let bump = Bump::new();
        let mut tree: Tree<u32> = Tree::new(&bump);
        let mut calls = 0;
        assert_eq!(get(&mut tree, long, 1, &mut calls), Ok(1));
        assert_eq!(get(&mut tree, short, 2, &mut calls), Ok(2));
        assert_eq!(get(&mut tree, long, 9, &mut calls), Ok(1));
        assert_eq!(get(&mut tree, short, 9, &mut calls), Ok(2));
        assert_eq!(calls, 2);
    }
}

#[test]
fn an_empty_path_in_a_trie_with_a_labelled_root_splits_the_root() {
    let bump = Bump::new();
    let mut tree: Tree<u32> = Tree::new(&bump);
    let mut calls = 0;
    assert_eq!(get(&mut tree, b"abc ", 1, &mut calls), Ok(1));
    assert_eq!(get(&mut tree, b" ", 2, &mut calls), Ok(2));
    assert_eq!(tree.node(0).unwrap().prefix(), b"");
    assert_eq!(tree.node(0).unwrap().value(), Some(&2));
    assert_eq!(get(&mut tree, b"abc ", 9, &mut calls), Ok(1));
    assert_eq!(get(&mut tree, b" ", 9, &mut calls), Ok(2));
    assert_eq!(calls, 2);
}

#[test]
fn a_node_without_value_gets_one_on_an_exact_match() {
    let bump = Bump::new();
    let mut tree: Tree<u32> = Tree::new(&bump);
    let mut calls = 0;
    assert_eq!(get(&mut tree, b"a/b ", 1, &mut calls), Ok(1));
    assert_eq!(tree.node(0).unwrap().value(), None);
    assert_eq!(get(&mut tree, b"a ", 2, &mut calls), Ok(2));
    assert_eq!(tree.node(0).unwrap().value(), Some(&2));
    assert_eq!(tree.len(), 2);
    assert_eq!(get(&mut tree, b"a/b ", 9, &mut calls), Ok(1));
    assert_eq!(calls, 2);
}

#[test]
fn visits_are_counted() {
    let bump = Bump::new();
    let mut tree: Tree<u32> = Tree::new(&bump);
    let mut calls = 0;
    assert_eq!(get(&mut tree, b"a/b ", 1, &mut calls), Ok(1));
    assert_eq!(tree.node(0).unwrap().priority(), 0);
    assert_eq!(tree.node(1).unwrap().priority(), 0);
    assert_eq!(get(&mut tree, b"a/b ", 1, &mut calls), Ok(1));
    assert_eq!(tree.node(0).unwrap().priority(), 1);
    assert_eq!(tree.node(1).unwrap().priority(), 1);
    assert_eq!(get(&mut tree, b"a/c ", 2, &mut calls), Ok(2));
    assert_eq!(tree.node(0).unwrap().priority(), 2);
    assert_eq!(tree.node(1).unwrap().priority(), 1);
    assert_eq!(tree.node(2).unwrap().priority(), 1);
}

#[test]
fn acquire_and_store_in_two_steps() {
    let bump = Bump::new();
    let mut tree: Tree<&'static str> = Tree::new(&bump);
    let mut cursor = PathIter::new(b"img/logo.png HTTP/1.1");
    let acq = tree.acquire(&mut cursor);
    assert!(matches!(acq, Acquired::Root(_)));
    assert_eq!(cursor.remainder(), b"img/logo.png HTTP/1.1");
    let id = tree.store(acq, "logo");
    assert_eq!(id, 1);
    assert_eq!(tree.value(id), Some(&"logo"));

    let mut cursor = PathIter::new(b"img/logo.png HTTP/1.1");
    match tree.acquire(&mut cursor) {
        Acquired::Exact(found) => assert_eq!(found, id),
        _ => panic!("the path was stored"),
    }
    assert_eq!(cursor.remainder(), b" HTTP/1.1");

    let mut cursor = PathIter::new(b"img/back.png HTTP/1.1");
    match tree.acquire(&mut cursor) {
        Acquired::CreateClosest(at, rem) => {
            assert_eq!(at, 0);
            assert_eq!(rem.remainder(), b"back.png HTTP/1.1");
        }
        _ => panic!("nothing continues the path"),
    }

    let mut cursor = PathIter::new(b"img/logo.svg HTTP/1.1");
    match tree.acquire(&mut cursor) {
        Acquired::SplitClosest(at, common, rem) => {
            assert_eq!((at, common), (1, 5));
            assert_eq!(rem.remainder(), b"svg HTTP/1.1");
        }
        _ => panic!("the path leaves the label"),
    }
}

#[test]
fn a_static_trie_works_like_any_other() {
    let mut tree: Tree<'static, u32> = Tree::new_static();
    let mut calls = 0;
    assert_eq!(get(&mut tree, b"abc ", 1, &mut calls), Ok(1));
    assert_eq!(get(&mut tree, b"abd ", 2, &mut calls), Ok(2));
    assert_eq!(tree.node(0).unwrap().prefix(), b"ab");
    assert_eq!(calls, 2);
}

#[test]
fn every_stored_path_is_found_again_whatever_is_stored_after_it() {
    let paths: [&[u8]; 9] = [
        b"abc ",
        b"abd ",
        b"ab ",
        b"x/y ",
        b"x/z ",
        b"x/y/w ",
        b"q ",
        b"abc/deep/er ",
        b"x/zz/top ",
    ];
    let bump = Bump::new();
    let mut tree: Tree<u32> = Tree::new(&bump);
    let mut calls = 0;
    for (i, path) in paths.iter().enumerate() {
        assert_eq!(get(&mut tree, path, i as u32, &mut calls), Ok(i as u32));
        for (j, earlier) in paths.iter().enumerate().take(i + 1) {
            assert_eq!(get(&mut tree, earlier, 99, &mut calls), Ok(j as u32));
        }
    }
    assert_eq!(calls, paths.len() as u32);
}

#[test]
fn a_path_with_an_empty_segment_is_made_again() {
    let bump = Bump::new();
    let mut tree: Tree<u32> = Tree::new(&bump);
    let mut calls = 0;
    assert_eq!(get(&mut tree, b"a//b ", 1, &mut calls), Ok(1));
    assert_eq!(get(&mut tree, b"a//b ", 2, &mut calls), Ok(2));
    assert_eq!(calls, 2);
}
