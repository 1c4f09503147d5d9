//! Builds the file system path of a request from its segments, letting
//! nothing through that could leave the root directory.

use vstd::prelude::*;
use crate::error::ErrorKind;
use crate::parse::{lemma_next_segment, next_segment, PathIter, SLASH};
use crate::scan::{all_in_ranges, in_ranges, vector_width};

verus! {

/// The bytes a segment may hold: ASCII letters and digits, `-`, `.` and `_`.
pub open spec fn allowed(b: u8) -> bool {
    in_ranges(b, 97, 122, 65, 90, 48, 57, 45, 46, 95)
}

/// The segment `.`.
pub open spec fn dot() -> Seq<u8> {
    seq![46u8]
}

/// The segment `..`.
pub open spec fn dot_dot() -> Seq<u8> {
    seq![46u8, 46u8]
}

/// A segment that may become part of a file system path: not empty, neither
/// `.` nor `..`, and made of allowed bytes only.
pub open spec fn valid_segment(seg: Seq<u8>) -> bool {
    &&& seg.len() > 0
    &&& seg != dot()
    &&& seg != dot_dot()
    &&& forall|i: int| 0 <= i < seg.len() ==> allowed(#[trigger] seg[i])
}

/// `base` with the component `seg` appended, a slash between the two unless
/// `base` is empty or ends in one.
pub open spec fn pushed(base: Seq<u8>, seg: Seq<u8>) -> Seq<u8> {
    if base.len() > 0 && base.last() != SLASH {
        base + seq![SLASH] + seg
    } else {
        base + seg
    }
}

/// `base` with every one of `segs` appended in turn.
pub open spec fn joined(base: Seq<u8>, segs: Seq<Seq<u8>>) -> Seq<u8>
    decreases segs.len(),
{
    if segs.len() == 0 {
        base
    } else {
        pushed(joined(base, segs.drop_last()), segs.last())
    }
}

/// A path that is built keeps the root directory in front: whatever the
/// segments, the result starts with `base`.
pub proof fn law_joined_keeps_root(base: Seq<u8>, segs: Seq<Seq<u8>>)
    ensures
        joined(base, segs).len() >= base.len(),
        joined(base, segs).take(base.len() as int) == base,
    decreases segs.len(),
{
    if segs.len() == 0 {
        assert(base.take(base.len() as int) == base);
    } else {
        let front = joined(base, segs.drop_last());
        law_joined_keeps_root(base, segs.drop_last());
        assert(pushed(front, segs.last()).take(base.len() as int) == front.take(base.len() as int));
    }
}

/// What is appended to the root directory holds allowed bytes and slashes
/// only, when every segment is valid.
pub proof fn law_joined_is_plain(base: Seq<u8>, segs: Seq<Seq<u8>>)
    requires
        all_valid(segs),
    ensures
        forall|i: int|
            base.len() <= i < joined(base, segs).len() ==> allowed(#[trigger] joined(base, segs)[i])
                || joined(base, segs)[i] == SLASH,
    decreases segs.len(),
{
    if segs.len() > 0 {
        let front = joined(base, segs.drop_last());
        law_joined_keeps_root(base, segs.drop_last());
        assert(all_valid(segs.drop_last())) by {
            assert forall|i: int| 0 <= i < segs.drop_last().len() implies valid_segment(
                #[trigger] segs.drop_last()[i],
            ) by {
                assert(segs.drop_last()[i] == segs[i]);
            }
        }
        law_joined_is_plain(base, segs.drop_last());
        let last = segs.last();
        assert(valid_segment(segs[segs.len() - 1]));
        let whole = pushed(front, last);
        assert forall|i: int| base.len() <= i < whole.len() implies allowed(#[trigger] whole[i])
            || whole[i] == SLASH by {
            if i < front.len() {
                assert(whole[i] == front[i]);
            } else if front.len() > 0 && front.last() != SLASH {
                if i > front.len() {
                    assert(whole[i] == last[i - front.len() - 1]);
                }
            } else {
                assert(whole[i] == last[i - front.len()]);
            }
        }
    }
}

/// Valid segments joined from nothing make a path that is not empty and
/// does not end in a slash.
pub proof fn lemma_joined_ends_plain(segs: Seq<Seq<u8>>)
    requires
        segs.len() > 0,
        all_valid(segs),
    ensures
        joined(Seq::empty(), segs).len() > 0,
        joined(Seq::empty(), segs).last() != SLASH,
{
    let last = segs.last();
    assert(valid_segment(segs[segs.len() - 1]));
    assert(allowed(last[last.len() - 1]));
    let front = joined(Seq::empty(), segs.drop_last());
    let whole = pushed(front, last);
    assert(whole.last() == last[last.len() - 1]);
}

/// To extend a root directory by segments one by one is to append to it,
/// as one component, the path that the segments make by themselves.
pub proof fn law_joined_by_relative(base: Seq<u8>, segs: Seq<Seq<u8>>)
    requires
        segs.len() > 0,
        all_valid(segs),
    ensures
        joined(base, segs) == pushed(base, joined(Seq::empty(), segs)),
    decreases segs.len(),
{
    let front = segs.drop_last();
    let last = segs.last();
    let none = Seq::<u8>::empty();
    if front.len() == 0 {
        assert(joined(base, front) == base);
        assert(joined(none, front) == none);
        assert(pushed(none, last) =~= last);
    } else {
        assert(all_valid(front)) by {
            assert forall|i: int| 0 <= i < front.len() implies valid_segment(
                #[trigger] front[i],
            ) by {
                assert(front[i] == segs[i]);
            }
        }
        law_joined_by_relative(base, front);
        lemma_joined_ends_plain(front);
        let rel = joined(none, front);
        let far = pushed(base, rel);
        assert(far.last() == rel.last());
        assert(pushed(far, last) =~= pushed(base, pushed(rel, last)));
    }
}

/// Every one of `segs` is a valid segment.
pub open spec fn all_valid(segs: Seq<Seq<u8>>) -> bool {
    forall|i: int| 0 <= i < segs.len() ==> valid_segment(#[trigger] segs[i])
}

/// Hands `segment` back if it is valid, and nothing if it is not. Segments of
/// at least one vector register are checked in bulk, shorter ones byte by
/// byte, with the same outcome.
pub fn check_segment(segment: &[u8]) -> (r: Option<&[u8]>)
    ensures
        match r {
            Some(s) => s@ == segment@ && valid_segment(segment@),
            None => !valid_segment(segment@),
        },
{
    if segment.len() >= vector_width() {
        if all_in_ranges::<97, 122, 65, 90, 48, 57, 45, 46, 95>(segment) {
            Some(segment)
        } else {
            None
        }
    } else {
        if segment.len() == 0 {
            return None;
        }
        if segment.len() == 1 && segment[0] == 46 {
            proof {
                assert(segment@ =~= dot());
            }
            return None;
        }
        if segment.len() == 2 && segment[0] == 46 && segment[1] == 46 {
            proof {
                assert(segment@ =~= dot_dot());
            }
            return None;
        }
        proof {
            if segment@ == dot() {
                assert(dot()[0] == 46);
            }
            if segment@ == dot_dot() {
                assert(dot_dot()[0] == 46 && dot_dot()[1] == 46);
            }
        }
        let mut pos: usize = 0;
        while pos < segment.len()
            invariant
                pos <= segment@.len(),
                forall|i: int| 0 <= i < pos ==> allowed(#[trigger] segment@[i]),
            decreases segment@.len() - pos,
        {
            let b = segment[pos];
            if (97 <= b && b <= 122) || (65 <= b && b <= 90) || (48 <= b && b <= 57) || (45 <= b
                && b <= 46) || b == 95 {
                pos = pos + 1;
            } else {
                assert(!allowed(segment@[pos as int]));
                return None;
            }
        }
        Some(segment)
    }
}

/// Appends one component to the path in `dist`.
fn push_segment(dist: &mut Vec<u8>, seg: &[u8])
    ensures
        final(dist)@ == pushed(old(dist)@, seg@),
{
    let n = dist.len();
    if n > 0 && dist[n - 1] != SLASH {
        dist.push(SLASH);
    }
    dist.extend_from_slice(seg);
}

/// Extends the root directory `dist` by the segments that `path_iter` still
/// yields. Fails with `InvalidInput` when there is no segment, or when one of
/// them is not valid.
pub fn extend_dist(dist: Vec<u8>, path_iter: PathIter) -> (r: Result<Vec<u8>, ErrorKind>)
    ensures
        match r {
            Ok(p) => {
                &&& path_iter.segments().len() > 0
                &&& all_valid(path_iter.segments())
                &&& p@ == joined(dist@, path_iter.segments())
            },
            Err(e) => {
                &&& e == ErrorKind::InvalidInput
                &&& path_iter.segments().len() == 0 || !all_valid(path_iter.segments())
            },
        },
{
    let mut out = dist;
    let mut it = path_iter;
    let ghost all = path_iter.segments();
    let mut any = false;
    let ghost mut taken: Seq<Seq<u8>> = Seq::empty();
    proof {
        use_type_invariant(&path_iter);
        assert(taken + it.segments() == all);
    }
    loop
        invariant
            it.wf(),
            all == path_iter.segments(),
            taken + it.segments() == all,
            all_valid(taken),
            out@ == joined(dist@, taken),
            any == (taken.len() > 0),
        decreases it.rest().len() + if it.done() { 0int } else { 1int },
    {
        let ghost before = it;
        proof {
            lemma_next_segment(it.rest());
        }
        match it.next() {
            Some(segment) => {
                proof {
                    let (s, e) = next_segment(before.rest()).unwrap();
                    assert(before.segments() == seq![segment@] + it.segments());
                    assert(taken + before.segments() == (taken + seq![segment@]) + it.segments());
                }
                match check_segment(segment) {
                    Some(seg) => {
                        proof {
                            let t2 = taken.push(seg@);
                            assert(t2 == taken + seq![segment@]);
                            assert(t2.drop_last() == taken);
                            assert(t2.last() == seg@);
                            taken = t2;
                        }
                        push_segment(&mut out, seg);
                        any = true;
                    },
                    None => {
                        proof {
                            assert(all[taken.len() as int] == segment@);
                        }
                        return Err(ErrorKind::InvalidInput);
                    },
                }
            },
            None => {
                proof {
                    assert(it.segments() == Seq::<Seq<u8>>::empty());
                    assert(taken + Seq::<Seq<u8>>::empty() == taken);
                }
                if !any {
                    return Err(ErrorKind::InvalidInput);
                }
                return Ok(out);
            },
        }
    }
}

} // verus!
