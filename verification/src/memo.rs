//! What the trie remembers. A value stored for a clean path is found again
//! by the next lookup of that path, and storing a value for one path leaves
//! the values of the others where a lookup finds them.

use vstd::prelude::*;
use crate::parse::{at_terminal, common_len, lead_of, lemma_common_len, lemma_common_len_unique,
    lemma_match_run, lemma_next_segment, match_run, next_segment, segment_end, segments_of,
    SLASH, SPACE};
use crate::route::{acyclic, chain, child_matches, law_lookup_ignores_counters,
    law_store_keeps_values, lemma_chain_shape, lemma_pick_child,
    lemma_visited_shape, lemma_walk_in_range, locate, matched, passed, pick_child, placed,
    ranked, split_at, stored, visited, walk, wf_nodes, with_prefix, with_value,
    NodeView, Place};
use crate::scan::{hits, lemma_stop_index, lemma_stop_index_after};

verus! {

/// A path as a client is meant to send it: segments that are not empty, one
/// slash between two of them, and a space behind the last.
pub open spec fn clean(rest: Seq<u8>) -> bool
    decreases rest.len(),
{
    let e = segment_end(rest, SLASH);
    &&& 0 < e < rest.len()
    &&& (rest[e] == SPACE || (rest[e] == SLASH && clean(rest.skip(e + 1))))
}

/// Where a lookup stands between two nodes: in front of a clean path, or in
/// front of the space that ends the path.
pub open spec fn at_path(rest: Seq<u8>) -> bool {
    clean(rest) || (rest.len() > 0 && rest[0] == SPACE)
}

/// A clean path starts with its first segment, which ends where the path's
/// first slash or space stands.
pub proof fn lemma_clean_head(rest: Seq<u8>)
    requires
        clean(rest),
    ensures
        lead_of(rest) == 0,
        !at_terminal(rest),
        rest[0] != SLASH,
        rest[0] != SPACE,
        next_segment(rest) == Some((0int, segment_end(rest, SLASH))),
        0 < segment_end(rest, SLASH) < rest.len(),
        rest[segment_end(rest, SLASH)] == SPACE || rest[segment_end(rest, SLASH)] == SLASH,
        forall|j: int|
            0 <= j < segment_end(rest, SLASH) ==> (#[trigger] rest[j]) != SLASH && rest[j]
                != SPACE,
{
    lemma_stop_index(rest, SLASH, SPACE, SPACE);
    let e = segment_end(rest, SLASH);
    assert(!hits(rest[0], SLASH, SPACE, SPACE));
    assert(rest.skip(0) == rest);
    assert forall|j: int| 0 <= j < e implies (#[trigger] rest[j]) != SLASH && rest[j]
        != SPACE by {
        assert(!hits(rest[j], SLASH, SPACE, SPACE));
    }
}

/// What is left of a clean path within its first segment is a clean path.
pub proof fn lemma_clean_mid(rest: Seq<u8>, j: int)
    requires
        clean(rest),
        0 <= j < segment_end(rest, SLASH),
    ensures
        clean(rest.skip(j)),
        segment_end(rest.skip(j), SLASH) == segment_end(rest, SLASH) - j,
{
    lemma_clean_head(rest);
    let e = segment_end(rest, SLASH);
    assert forall|i: int| 0 <= i < j implies !hits(#[trigger] rest[i], SLASH, SPACE, SPACE) by {
        assert(rest[i] != SLASH && rest[i] != SPACE);
    }
    lemma_stop_index_after(rest, j, SLASH, SPACE, SPACE);
    let tail = rest.skip(j);
    assert(tail[e - j] == rest[e]);
    assert(tail.skip(e - j + 1) == rest.skip(e + 1));
}

/// Behind the first segment of a clean path stands the space that ends the
/// path, or a slash and a clean path.
pub proof fn lemma_clean_end(rest: Seq<u8>)
    requires
        clean(rest),
    ensures
        ({
            let e = segment_end(rest, SLASH);
            let after = rest.skip(e);
            &&& after.len() > 0
            &&& after[0] == rest[e]
            &&& rest[e] == SPACE ==> next_segment(after) is None && lead_of(after) == 0
                && at_terminal(after)
            &&& rest[e] == SLASH ==> {
                &&& clean(after.skip(1))
                &&& after.skip(1) == rest.skip(e + 1)
                &&& lead_of(after) == 1
                &&& next_segment(after) == Some(
                    (1int, 1 + segment_end(rest.skip(e + 1), SLASH)),
                )
                &&& after.subrange(1, 1 + segment_end(rest.skip(e + 1), SLASH)) == rest.skip(
                    e + 1,
                ).take(segment_end(rest.skip(e + 1), SLASH))
            }
        }),
{
    lemma_clean_head(rest);
    let e = segment_end(rest, SLASH);
    let after = rest.skip(e);
    assert(after[0] == rest[e]);
    if rest[e] == SLASH {
        let next = rest.skip(e + 1);
        assert(after.skip(1) == next);
        lemma_clean_head(next);
        let e2 = segment_end(next, SLASH);
        assert(after.subrange(1, 1 + e2) == next.take(e2));
    }
}

/// The segments of a clean path: its first segment, and the segments of the
/// clean path behind the slash that follows, if one follows.
pub proof fn lemma_clean_segments(rest: Seq<u8>)
    requires
        clean(rest),
    ensures
        ({
            let e = segment_end(rest, SLASH);
            &&& segments_of(rest).len() > 0
            &&& segments_of(rest)[0] == rest.take(e)
            &&& rest.take(e).len() == e
            &&& rest[e] == SPACE ==> segments_of(rest) == seq![rest.take(e)]
            &&& rest[e] == SLASH ==> segments_of(rest) == seq![rest.take(e)] + segments_of(
                rest.skip(e + 1),
            )
        }),
{
    lemma_clean_head(rest);
    lemma_clean_end(rest);
    let e = segment_end(rest, SLASH);
    let after = rest.skip(e);
    assert(rest.subrange(0, e) == rest.take(e));
    if rest[e] == SLASH {
        let next = rest.skip(e + 1);
        lemma_clean_head(next);
        let e2 = segment_end(next, SLASH);
        assert(after.skip(1 + e2) == next.skip(e2));
        assert(next.subrange(0, e2) == next.take(e2));
        assert(segments_of(after) == segments_of(next));
    } else {
        assert(segments_of(after) == Seq::<Seq<u8>>::empty());
        assert(seq![rest.take(e)] + Seq::<Seq<u8>>::empty() == seq![rest.take(e)]);
    }
}

/// A match that starts at a slash in front of a clean path is the match of
/// that path, with the slash passed as well if anything matches.
pub proof fn lemma_match_slash(rest: Seq<u8>, other: Seq<u8>)
    requires
        rest.len() > 0,
        rest[0] == SLASH,
        clean(rest.skip(1)),
    ensures
        match_run(rest, other) == if match_run(rest.skip(1), other).0 > 0 {
            (match_run(rest.skip(1), other).0, 1 + match_run(rest.skip(1), other).1)
        } else {
            (0int, 0int)
        },
        match_run(rest.skip(1), other).0 == 0 ==> match_run(rest.skip(1), other).1 == 0,
{
    let next = rest.skip(1);
    lemma_match_run(next, other);
    if other.len() > 0 {
        lemma_clean_head(next);
        let e = segment_end(next, SLASH);
        lemma_stop_index(next, SLASH, SPACE, SPACE);
        assert(lead_of(rest) == 1);
        assert(!at_terminal(rest));
        assert(next_segment(rest) == Some((1int, 1 + e)));
        assert(rest.subrange(1, 1 + e) == next.subrange(0, e));
        let n = common_len(next.subrange(0, e), other);
        lemma_common_len(next.subrange(0, e), other);
        if n <= 0 {
        } else if n < e || n >= other.len() {
        } else {
            assert(rest.skip(1 + n) == next.skip(n));
            lemma_match_run(next.skip(n), other.skip(n));
        }
    }
}

/// How a match against a clean path ends. It stands in front of a clean
/// path or of the closing space, one slash behind the matched bytes having
/// been passed. If part of the candidate is left and the path goes on, the
/// next bytes of the two differ. And the part of the candidate that matched
/// matches in the same way by itself.
pub proof fn lemma_match_clean(rest: Seq<u8>, other: Seq<u8>)
    requires
        clean(rest),
        other.len() > 0,
    ensures
        ({
            let run = match_run(rest, other);
            let stop = rest.skip(run.1 + lead_of(rest.skip(run.1)));
            &&& 0 <= run.0 <= other.len()
            &&& 0 <= run.0 <= run.1
            &&& run.1 + lead_of(rest.skip(run.1)) <= rest.len()
            &&& at_path(stop)
            &&& (run.0 > 0 <==> rest[0] == other[0])
            &&& run.0 == 0 ==> run.1 == 0
            &&& run.0 < other.len() && !at_terminal(stop) ==> stop[0] != other[run.0]
            &&& run.0 > 0 ==> match_run(rest, other.take(run.0)) == run
        }),
    decreases other.len(),
{
    lemma_clean_head(rest);
    lemma_clean_end(rest);
    lemma_match_run(rest, other);
    let e = segment_end(rest, SLASH);
    let seg = rest.subrange(0, e);
    let n = common_len(seg, other);
    lemma_common_len(seg, other);
    let run = match_run(rest, other);
    assert(seg[0] == rest[0]);
    if n <= 0 {
        assert(rest.skip(0) == rest);
    } else if n < e {
        assert(run == (n, n));
        lemma_clean_mid(rest, n);
        lemma_clean_head(rest.skip(n));
        assert(rest.skip(n).skip(0) == rest.skip(n));
        assert(rest.skip(n)[0] == seg[n]);
        let cut = other.take(n);
        assert forall|j: int| 0 <= j < n implies seg[j] == cut[j] by {
            assert(cut[j] == other[j]);
        }
        lemma_common_len_unique(seg, cut, n);
        assert(match_run(rest, cut) == (n, n));
    } else if n >= other.len() {
        assert(run == (n, n));
        assert(other.take(n) == other);
        let after = rest.skip(e);
        if rest[e] == SLASH {
            assert(after.skip(1) == rest.skip(e + 1));
        } else {
            assert(after.skip(0) == after);
        }
    } else {
        let after = rest.skip(e);
        let left = other.skip(e);
        let t = match_run(after, left);
        lemma_match_run(after, left);
        assert(run == (e + t.0, e + t.1));
        let cut = other.take(run.0);
        assert forall|j: int| 0 <= j < e implies seg[j] == cut[j] by {
            assert(cut[j] == other[j]);
        }
        lemma_common_len_unique(seg, cut, e);
        if rest[e] == SPACE {
            assert(t == (0int, 0int));
            assert(after.skip(0) == after);
            assert(rest.skip(e).skip(0) == rest.skip(e));
            assert(match_run(rest, cut) == (e, e));
        } else {
            let next = after.skip(1);
            lemma_match_slash(after, left);
            lemma_match_clean(next, left);
            let inner = match_run(next, left);
            if inner.0 == 0 {
                assert(t == (0int, 0int));
                assert(lead_of(rest.skip(e)) == 1);
                assert(rest.skip(e + 1) == next);
                assert(next.skip(0) == next);
                lemma_clean_head(next);
                assert(left[0] == other[e]);
                assert(match_run(rest, cut) == (e, e));
            } else {
                assert(t == (inner.0, 1 + inner.1));
                assert(rest.skip(e + 1 + inner.1) == next.skip(inner.1));
                assert(rest.skip(e + 1 + inner.1 + lead_of(next.skip(inner.1))) == next.skip(
                    inner.1 + lead_of(next.skip(inner.1)),
                ));
                if inner.0 < left.len() {
                    assert(left[inner.0] == other[e + inner.0]);
                }
                assert(cut.skip(e) == left.take(inner.0));
                lemma_match_slash(after, left.take(inner.0));
                assert(match_run(after, cut.skip(e)) == (inner.0, 1 + inner.1));
                assert(match_run(rest, cut) == run);
            }
        }
    }
}

/// A match that covers a whole candidate can be made in two steps: the
/// first `k` bytes of the candidate match by themselves, the path then goes
/// on with the candidate's next byte, and the rest of the candidate
/// matches from there, up to where the whole match ends.
#[verifier::rlimit(40)]
pub proof fn lemma_match_split(rest: Seq<u8>, other: Seq<u8>, k: int)
    requires
        clean(rest),
        0 < k < other.len(),
        match_run(rest, other).0 == other.len(),
    ensures
        ({
            let whole = match_run(rest, other);
            let head = match_run(rest, other.take(k));
            let mid = rest.skip(head.1 + lead_of(rest.skip(head.1)));
            let tail = match_run(mid, other.skip(k));
            &&& head.0 == k
            &&& 0 < head.1 + lead_of(rest.skip(head.1)) <= rest.len()
            &&& clean(mid)
            &&& mid[0] == other[k]
            &&& tail.0 == other.len() - k
            &&& mid.skip(tail.1 + lead_of(mid.skip(tail.1))) == rest.skip(
                whole.1 + lead_of(rest.skip(whole.1)),
            )
        }),
    decreases other.len(),
{
    lemma_clean_head(rest);
    lemma_clean_end(rest);
    lemma_match_run(rest, other);
    let e = segment_end(rest, SLASH);
    let seg = rest.subrange(0, e);
    let n = common_len(seg, other);
    lemma_common_len(seg, other);
    let whole = match_run(rest, other);
    let cut = other.take(k);
    let more = other.skip(k);
    if n < e || n >= other.len() {
        assert(whole == (n, n));
        assert forall|j: int| 0 <= j < k implies seg[j] == cut[j] by {
            assert(cut[j] == other[j]);
        }
        lemma_common_len_unique(seg, cut, k);
        assert(match_run(rest, cut) == (k, k));
        lemma_clean_mid(rest, k);
        let mid = rest.skip(k);
        lemma_clean_head(mid);
        assert(mid.skip(0) == mid);
        assert(mid[0] == seg[k]);
        let mseg = mid.subrange(0, e - k);
        assert forall|j: int| 0 <= j < n - k implies mseg[j] == more[j] by {
            assert(mseg[j] == seg[j + k]);
            assert(more[j] == other[j + k]);
        }
        lemma_common_len_unique(mseg, more, n - k);
        assert(match_run(mid, more) == (n - k, n - k));
        assert(mid.skip(n - k) == rest.skip(n));
        assert(mid.skip(n - k + lead_of(rest.skip(n))) == rest.skip(n + lead_of(rest.skip(n))));
    } else {
        let after = rest.skip(e);
        let left = other.skip(e);
        let t = match_run(after, left);
        lemma_match_run(after, left);
        assert(whole == (e + t.0, e + t.1));
        assert(rest[e] == SLASH);
        let next = after.skip(1);
        lemma_match_slash(after, left);
        lemma_match_clean(next, left);
        let inner = match_run(next, left);
        assert(t == (inner.0, 1 + inner.1));
        assert(rest.skip(e + 1 + inner.1) == next.skip(inner.1));
        assert(rest.skip(e + 1 + inner.1 + lead_of(next.skip(inner.1))) == next.skip(
            inner.1 + lead_of(next.skip(inner.1)),
        ));
        if k < e {
            assert forall|j: int| 0 <= j < k implies seg[j] == cut[j] by {
                assert(cut[j] == other[j]);
            }
            lemma_common_len_unique(seg, cut, k);
            assert(match_run(rest, cut) == (k, k));
            lemma_clean_mid(rest, k);
            let mid = rest.skip(k);
            lemma_clean_head(mid);
            assert(mid.skip(0) == mid);
            assert(mid[0] == seg[k]);
            let mseg = mid.subrange(0, e - k);
            assert forall|j: int| 0 <= j < e - k implies mseg[j] == more[j] by {
                assert(mseg[j] == seg[j + k]);
                assert(more[j] == other[j + k]);
            }
            lemma_common_len_unique(mseg, more, e - k);
            assert(mid.skip(e - k) == after);
            assert(more.skip(e - k) == left);
            assert(match_run(mid, more) == (e - k + t.0, e - k + t.1));
            assert(mid.skip(e - k + t.1) == rest.skip(e + t.1));
            assert(mid.skip(e - k + t.1 + lead_of(rest.skip(e + t.1))) == rest.skip(
                e + t.1 + lead_of(rest.skip(e + t.1)),
            ));
        } else if k == e {
            assert forall|j: int| 0 <= j < e implies seg[j] == cut[j] by {
                assert(cut[j] == other[j]);
            }
            lemma_common_len_unique(seg, cut, e);
            assert(match_run(rest, cut) == (e, e));
            assert(rest.skip(e + 1) == next);
            lemma_clean_head(next);
            assert(left[0] == other[e]);
            assert(more == left);
        } else {
            assert forall|j: int| 0 <= j < e implies seg[j] == cut[j] by {
                assert(cut[j] == other[j]);
            }
            lemma_common_len_unique(seg, cut, e);
            assert(cut.skip(e) == left.take(k - e));
            lemma_match_split(next, left, k - e);
            let h = match_run(next, left.take(k - e));
            lemma_match_slash(after, left.take(k - e));
            assert(match_run(after, cut.skip(e)) == (h.0, 1 + h.1));
            assert(match_run(rest, cut) == (e + h.0, e + 1 + h.1));
            assert(rest.skip(e + 1 + h.1) == next.skip(h.1));
            assert(rest.skip(e + 1 + h.1 + lead_of(next.skip(h.1))) == next.skip(
                h.1 + lead_of(next.skip(h.1)),
            ));
            assert(left.skip(k - e) == more);
            assert(left[k - e] == other[k]);
        }
    }
}

/// One step of a lookup that stands in front of a clean path, at a node
/// with the label `prefix`.
pub proof fn lemma_step_clean(rest: Seq<u8>, prefix: Seq<u8>)
    requires
        clean(rest),
    ensures
        ({
            let adv = passed(rest, prefix, false);
            let m = matched(rest, prefix, false);
            let stop = rest.skip(adv);
            &&& 0 <= adv <= rest.len()
            &&& 0 <= m <= prefix.len()
            &&& at_path(stop)
            &&& prefix.len() > 0 && m == prefix.len() ==> stop.len() < rest.len()
            &&& prefix.len() > 0 ==> (m > 0 <==> rest[0] == prefix[0])
            &&& m == 0 ==> adv == 0
            &&& m < prefix.len() && !at_terminal(stop) ==> stop[0] != prefix[m]
            &&& m > 0 ==> passed(rest, prefix.take(m), false) == adv && matched(
                rest,
                prefix.take(m),
                false,
            ) == m
        }),
{
    lemma_clean_head(rest);
    if prefix.len() == 0 {
        assert(rest.skip(0) == rest);
    } else {
        lemma_match_clean(rest, prefix);
        let run = match_run(rest, prefix);
        if run.0 == 0 {
            assert(rest.skip(0) == rest);
        }
    }
}

/// The node that a place names.
pub open spec fn node_of(place: Place) -> int {
    match place {
        Place::Root => 0,
        Place::Exact(i) => i,
        Place::Split(i, _) => i,
        Place::Create(i) => i,
    }
}

/// A lookup ends at the node it starts from, or at a node that ranks
/// above it.
pub proof fn lemma_walk_rank<T>(
    nodes: Seq<NodeView<T>>,
    rank: Seq<int>,
    cur: int,
    rest: Seq<u8>,
    done: bool,
)
    requires
        wf_nodes(nodes),
        ranked(nodes, rank),
        0 <= cur < nodes.len(),
    ensures
        0 <= node_of(walk(nodes, cur, rest, done).place) < nodes.len(),
        rank[node_of(walk(nodes, cur, rest, done).place)] >= rank[cur],
        !(walk(nodes, cur, rest, done).place is Root),
    decreases 2 * rest.len() + (if nodes[cur].prefix.len() == 0 {
        1int
    } else {
        0int
    }),
{
    let prefix = nodes[cur].prefix;
    let adv = passed(rest, prefix, done);
    let rest2 = rest.skip(adv);
    if matched(rest, prefix, done) < prefix.len() {
    } else if done || at_terminal(rest2) {
    } else {
        lemma_pick_child(nodes, nodes[cur].children, rest2, 0);
        lemma_pick_member(nodes, nodes[cur].children, rest2, 0);
        match pick_child(nodes, nodes[cur].children, rest2, 0) {
            Some(c) => {
                if nodes[c].prefix.len() > 0 && (prefix.len() == 0 || rest2.len() < rest.len()) {
                    lemma_walk_rank(nodes, rank, c, rest2, done);
                    let k = choose|k: int|
                        0 <= k < nodes[cur].children.len() && nodes[cur].children[k] == c;
                    assert(rank[nodes[cur].children[k] as int] > rank[cur]);
                }
            },
            None => {},
        }
    }
}

/// A child that is picked is one of the children.
pub proof fn lemma_pick_member<T>(
    nodes: Seq<NodeView<T>>,
    children: Seq<usize>,
    rest: Seq<u8>,
    from: int,
)
    requires
        0 <= from,
    ensures
        match pick_child(nodes, children, rest, from) {
            Some(c) => exists|k: int| from <= k < children.len() && children[k] == c,
            None => forall|k: int|
                from <= k < children.len() ==> !child_matches(
                    nodes,
                    (#[trigger] children[k]) as int,
                    rest,
                ),
        },
    decreases children.len() - from,
{
    if from >= children.len() {
    } else if child_matches(nodes, children[from] as int, rest) {
        assert(children[from] == children[from]);
    } else {
        lemma_pick_member(nodes, children, rest, from + 1);
        match pick_child(nodes, children, rest, from) {
            Some(c) => {
                let k = choose|k: int| from + 1 <= k < children.len() && children[k] == c;
                assert(from <= k < children.len() && children[k] == c);
            },
            None => {
                assert forall|k: int| from <= k < children.len() implies !child_matches(
                    nodes,
                    (#[trigger] children[k]) as int,
                    rest,
                ) by {
                    if k > from {
                    }
                }
            },
        }
    }
}

/// The same child is picked in a trie `after` whose labels are those of
/// `nodes`, but for the label of node `f`, of which `after` keeps the first
/// `kept` bytes: at least one if `f` is the child picked.
pub proof fn lemma_pick_same<T>(
    nodes: Seq<NodeView<T>>,
    after: Seq<NodeView<T>>,
    children: Seq<usize>,
    rest: Seq<u8>,
    from: int,
    f: int,
    kept: int,
)
    requires
        0 <= from,
        after.len() >= nodes.len(),
        0 <= f < nodes.len(),
        0 <= kept <= nodes[f].prefix.len(),
        after[f].prefix == nodes[f].prefix.take(kept),
        forall|k: int|
            0 <= k < children.len() && children[k] != f ==> after[(#[trigger] children[k]) as int].prefix
                == nodes[children[k] as int].prefix,
        forall|k: int| 0 <= k < children.len() ==> (#[trigger] children[k]) < nodes.len(),
        pick_child(nodes, children, rest, from) == Some(f) ==> kept >= 1,
    ensures
        pick_child(after, children, rest, from) == pick_child(nodes, children, rest, from),
    decreases children.len() - from,
{
    if from >= children.len() {
    } else {
        let c = children[from] as int;
        assert(children[from] < nodes.len());
        if c == f {
            if child_matches(nodes, c, rest) {
                assert(after[f].prefix[0] == nodes[f].prefix[0]);
            } else {
                if kept > 0 {
                    assert(after[f].prefix[0] == nodes[f].prefix[0]);
                }
                lemma_pick_same(nodes, after, children, rest, from + 1, f, kept);
            }
        } else {
            assert(after[children[from] as int].prefix == nodes[children[from] as int].prefix);
            if !child_matches(nodes, c, rest) {
                lemma_pick_same(nodes, after, children, rest, from + 1, f, kept);
            }
        }
    }
}

/// Where none of the children continues the path, a new last child that
/// does is the one picked.
pub proof fn lemma_pick_pushed<T>(
    after: Seq<NodeView<T>>,
    children: Seq<usize>,
    fresh: usize,
    rest: Seq<u8>,
    from: int,
)
    requires
        0 <= from <= children.len(),
        forall|k: int|
            from <= k < children.len() ==> !child_matches(
                after,
                (#[trigger] children[k]) as int,
                rest,
            ),
        child_matches(after, fresh as int, rest),
    ensures
        pick_child(after, children.push(fresh), rest, from) == Some(fresh as int),
    decreases children.len() - from,
{
    let all = children.push(fresh);
    if from == children.len() {
        assert(all[from] == fresh);
    } else {
        assert(all[from] == children[from]);
        assert(!child_matches(after, children[from] as int, rest));
        lemma_pick_pushed(after, children, fresh, rest, from + 1);
    }
}

/// A lookup along a chain. The nodes from `first` on carry the segments
/// `segs` in order, each the only child of the one before. A lookup that
/// stands at the node for one of the segments, in front of a clean path
/// with the segments from that one on, ends at the last node of the chain.
pub proof fn lemma_walk_line<T>(
    after: Seq<NodeView<T>>,
    at: int,
    rest: Seq<u8>,
    segs: Seq<Seq<u8>>,
    first: int,
)
    requires
        0 <= first <= at < first + segs.len() <= after.len(),
        first + segs.len() <= usize::MAX,
        forall|j: int|
            first <= j < first + segs.len() ==> (#[trigger] after[j]).prefix == segs[j - first]
                && after[j].children == if j == first + segs.len() - 1 {
                Seq::<usize>::empty()
            } else {
                seq![(j + 1) as usize]
            },
        clean(rest),
        segments_of(rest) == segs.skip(at - first),
    ensures
        walk(after, at, rest, false).place == Place::Exact(first + segs.len() - 1),
    decreases first + segs.len() - at,
{
    lemma_clean_head(rest);
    lemma_clean_end(rest);
    lemma_clean_segments(rest);
    let e = segment_end(rest, SLASH);
    let seg = rest.take(e);
    let prefix = after[at].prefix;
    assert(segs.skip(at - first)[0] == segs[at - first]);
    assert(prefix == seg);
    assert(rest.subrange(0, e) == seg);
    lemma_common_len_unique(seg, seg, e);
    assert(match_run(rest, prefix) == (e, e));
    let adv = passed(rest, prefix, false);
    let rest2 = rest.skip(adv);
    if rest[e] == SPACE {
        assert(adv == e);
        assert(at_terminal(rest2));
        assert(segs.skip(at - first).len() == 1);
    } else {
        assert(adv == e + 1);
        lemma_clean_head(rest2);
        lemma_clean_segments(rest2);
        assert(segs.skip(at - first).len() >= 2);
        let next = at + 1;
        assert(segs.skip(at - first).skip(1) == segs.skip(next - first));
        assert((seq![seg] + segments_of(rest2)).skip(1) == segments_of(rest2));
        assert(segs.skip(next - first)[0] == segs[next - first]);
        assert(after[next].prefix == rest2.take(segment_end(rest2, SLASH)));
        assert(after[next].prefix[0] == rest2[0]);
        assert(child_matches(after, next, rest2));
        assert(after[at].children == seq![next as usize]);
        assert(pick_child(after, after[at].children, rest2, 0) == Some(next)) by {
            assert(after[at].children[0] == next as usize);
        }
        lemma_walk_line(after, next, rest2, segs, first);
    }
}

/// A path has no more segments than bytes.
pub proof fn lemma_segments_count(rest: Seq<u8>)
    ensures
        segments_of(rest).len() <= rest.len(),
    decreases rest.len(),
{
    lemma_next_segment(rest);
    match next_segment(rest) {
        Some((s, e)) => {
            lemma_segments_count(rest.skip(e));
        },
        None => {},
    }
}

/// Storing a value changes label and children of no node but the one
/// where the path came to rest.
pub proof fn lemma_placed_elsewhere<T>(
    nodes: Seq<NodeView<T>>,
    place: Place,
    segs: Seq<Seq<u8>>,
    v: T,
    j: int,
)
    requires
        !(place is Root),
        0 <= node_of(place) < nodes.len(),
        0 <= j < nodes.len(),
        j != node_of(place),
    ensures
        placed(nodes, place, segs, v).0.len() >= nodes.len(),
        placed(nodes, place, segs, v).0[j].prefix == nodes[j].prefix,
        placed(nodes, place, segs, v).0[j].children == nodes[j].children,
{
    match place {
        Place::Root => {},
        Place::Exact(i) => {},
        Place::Split(i, common) => {
            let base = split_at(nodes, i, common);
            lemma_chain_shape(base, i, segs, 1);
            assert(base[j] == nodes[j]);
        },
        Place::Create(i) => {
            lemma_chain_shape(nodes, i, segs, 1);
        },
    }
}

/// The number of label bytes that the node where a path came to rest
/// keeps: those in front of a split, else all.
pub open spec fn kept<T>(nodes: Seq<NodeView<T>>, place: Place) -> int {
    match place {
        Place::Split(i, common) => if 0 <= common < nodes[i].prefix.len() {
            common
        } else {
            nodes[i].prefix.len() as int
        },
        _ => nodes[node_of(place)].prefix.len() as int,
    }
}

/// The node where the path came to rest keeps the front of its label.
pub proof fn lemma_placed_kept<T>(nodes: Seq<NodeView<T>>, place: Place, segs: Seq<Seq<u8>>, v: T)
    requires
        !(place is Root),
        0 <= node_of(place) < nodes.len(),
    ensures
        placed(nodes, place, segs, v).0.len() >= nodes.len(),
        placed(nodes, place, segs, v).0[node_of(place)].prefix == nodes[node_of(place)].prefix.take(
            kept(nodes, place),
        ),
{
    let f = node_of(place);
    assert(nodes[f].prefix.take(nodes[f].prefix.len() as int) == nodes[f].prefix);
    match place {
        Place::Root => {},
        Place::Exact(i) => {},
        Place::Split(i, common) => {
            let base = split_at(nodes, i, common);
            lemma_chain_shape(base, i, segs, 1);
        },
        Place::Create(i) => {
            lemma_chain_shape(nodes, i, segs, 1);
        },
    }
}

/// A path that ran past a node, and was stored in a new chain below it,
/// is found at the end of that chain.
pub proof fn lemma_found_create<T>(nodes: Seq<NodeView<T>>, x: int, rest: Seq<u8>, v: T)
    requires
        wf_nodes(nodes),
        0 <= x < nodes.len(),
        nodes.len() + rest.len() < usize::MAX,
        clean(rest),
        !at_terminal(rest.skip(passed(rest, nodes[x].prefix, false))),
        matched(rest, nodes[x].prefix, false) == nodes[x].prefix.len(),
        pick_child(
            nodes,
            nodes[x].children,
            rest.skip(passed(rest, nodes[x].prefix, false)),
            0,
        ) is None,
    ensures
        ({
            let rest2 = rest.skip(passed(rest, nodes[x].prefix, false));
            let p = placed(nodes, Place::Create(x), segments_of(rest2), v);
            walk(p.0, x, rest, false).place == Place::Exact(p.1)
        }),
{
    let prefix = nodes[x].prefix;
    let adv = passed(rest, prefix, false);
    let rest2 = rest.skip(adv);
    let left = segments_of(rest2);
    lemma_step_clean(rest, prefix);
    lemma_clean_head(rest2);
    lemma_clean_segments(rest2);
    lemma_segments_count(rest2);
    let n = nodes.len() as int;
    let c = chain(nodes, x, left, 1);
    lemma_chain_shape(nodes, x, left, 1);
    let q = with_value(c.0, c.1, v);
    assert(q == placed(nodes, Place::Create(x), left, v).0);
    assert forall|j: int| 0 <= j < q.len() implies (#[trigger] q[j]).prefix == c.0[j].prefix
        && q[j].children == c.0[j].children by {}
    assert(q[x].prefix == prefix);
    assert(q[x].children == nodes[x].children.push(n as usize));
    lemma_pick_member(nodes, nodes[x].children, rest2, 0);
    assert forall|k: int| 0 <= k < nodes[x].children.len() implies !child_matches(
        q,
        (#[trigger] nodes[x].children[k]) as int,
        rest2,
    ) by {
        let ck = nodes[x].children[k] as int;
        assert(!child_matches(nodes, ck, rest2));
        assert(ck < n);
        assert(q[ck].prefix == nodes[ck].prefix);
    }
    assert(q[n].prefix == left[0]);
    assert(q[n].prefix[0] == rest2[0]);
    assert(child_matches(q, n, rest2));
    lemma_pick_pushed(q, nodes[x].children, n as usize, rest2, 0);
    assert(left.skip(0) == left);
    assert forall|j: int| n <= j < n + left.len() implies (#[trigger] q[j]).prefix == left[j - n]
        && q[j].children == if j == n + left.len() - 1 {
        Seq::<usize>::empty()
    } else {
        seq![(j + 1) as usize]
    } by {
        assert(c.0[j].prefix == left[j - n]);
    }
    lemma_walk_line(q, n, rest2, left, n);
}

/// A path that left a node's label early, and was stored in a new chain
/// below the node that was split, is found at the end of that chain.
pub proof fn lemma_found_split<T>(nodes: Seq<NodeView<T>>, x: int, rest: Seq<u8>, v: T)
    requires
        wf_nodes(nodes),
        0 <= x < nodes.len(),
        nodes.len() + rest.len() + 1 < usize::MAX,
        clean(rest),
        !at_terminal(rest.skip(passed(rest, nodes[x].prefix, false))),
        matched(rest, nodes[x].prefix, false) < nodes[x].prefix.len(),
    ensures
        ({
            let rest2 = rest.skip(passed(rest, nodes[x].prefix, false));
            let p = placed(
                nodes,
                Place::Split(x, matched(rest, nodes[x].prefix, false)),
                segments_of(rest2),
                v,
            );
            walk(p.0, x, rest, false).place == Place::Exact(p.1)
        }),
{
    let prefix = nodes[x].prefix;
    let adv = passed(rest, prefix, false);
    let m = matched(rest, prefix, false);
    let rest2 = rest.skip(adv);
    let left = segments_of(rest2);
    lemma_step_clean(rest, prefix);
    lemma_clean_head(rest2);
    lemma_clean_segments(rest2);
    lemma_segments_count(rest2);
    let n = nodes.len() as int;
    let base = split_at(nodes, x, m);
    let c = chain(base, x, left, 1);
    lemma_chain_shape(base, x, left, 1);
    let q = with_value(c.0, c.1, v);
    assert(q == placed(nodes, Place::Split(x, m), left, v).0);
    assert forall|j: int| 0 <= j < q.len() implies (#[trigger] q[j]).prefix == c.0[j].prefix
        && q[j].children == c.0[j].children by {}
    let head = prefix.take(m);
    assert(q[x].prefix == head);
    assert(base[x].children == seq![n as usize]);
    assert(q[x].children == seq![n as usize].push((n + 1) as usize));
    assert(q[n].prefix == prefix.skip(m));
    assert(q[n].prefix[0] == prefix[m]);
    if m > 0 {
        lemma_step_clean(rest, head);
    } else {
        assert(head.len() == 0);
        assert(rest.skip(0) == rest);
    }
    assert(passed(rest, head, false) == adv);
    assert(matched(rest, head, false) == m);
    assert(!child_matches(q, n, rest2));
    assert(q[n + 1].prefix == left[0]);
    assert(q[n + 1].prefix[0] == rest2[0]);
    assert(child_matches(q, n + 1, rest2));
    assert forall|k: int| 0 <= k < seq![n as usize].len() implies !child_matches(
        q,
        (#[trigger] seq![n as usize][k]) as int,
        rest2,
    ) by {}
    lemma_pick_pushed(q, seq![n as usize], (n + 1) as usize, rest2, 0);
    assert(left.skip(0) == left);
    assert forall|j: int|
        n + 1 <= j < n + 1 + left.len() implies (#[trigger] q[j]).prefix == left[j - (n + 1)]
        && q[j].children == if j == n + 1 + left.len() - 1 {
        Seq::<usize>::empty()
    } else {
        seq![(j + 1) as usize]
    } by {
        assert(c.0[j].prefix == left[j - (n + 1)]);
    }
    lemma_walk_line(q, n + 1, rest2, left, n + 1);
}

/// A value stored for a clean path is found by a lookup of that path from
/// the node `x` on, if the lookup that placed it started there.
pub proof fn lemma_found_again<T>(
    nodes: Seq<NodeView<T>>,
    rank: Seq<int>,
    x: int,
    rest: Seq<u8>,
    v: T,
)
    requires
        wf_nodes(nodes),
        ranked(nodes, rank),
        0 <= x < nodes.len(),
        nodes.len() + rest.len() + 1 < usize::MAX,
        clean(rest),
    ensures
        ({
            let w = walk(nodes, x, rest, false);
            let p = placed(nodes, w.place, segments_of(rest.skip(w.consumed)), v);
            &&& walk(p.0, x, rest, false).place == Place::Exact(p.1)
        }),
    decreases 2 * rest.len() + (if nodes[x].prefix.len() == 0 {
        1int
    } else {
        0int
    }),
{
    let prefix = nodes[x].prefix;
    let adv = passed(rest, prefix, false);
    let m = matched(rest, prefix, false);
    let rest2 = rest.skip(adv);
    let w = walk(nodes, x, rest, false);
    lemma_step_clean(rest, prefix);
    if m < prefix.len() {
        if !at_terminal(rest2) {
            lemma_found_split(nodes, x, rest, v);
        }
    } else if at_terminal(rest2) {
    } else {
        lemma_pick_child(nodes, nodes[x].children, rest2, 0);
        lemma_pick_member(nodes, nodes[x].children, rest2, 0);
        match pick_child(nodes, nodes[x].children, rest2, 0) {
            None => {
                lemma_found_create(nodes, x, rest, v);
            },
            Some(c) => {
                assert(nodes[c].prefix.len() > 0);
                assert(prefix.len() == 0 || rest2.len() < rest.len());
                let sub = walk(nodes, c, rest2, false);
                assert(w.place == sub.place && w.consumed == adv + sub.consumed);
                lemma_walk_in_range(nodes, c, rest2, false);
                lemma_walk_rank(nodes, rank, c, rest2, false);
                let k = choose|k: int| 0 <= k < nodes[x].children.len() && nodes[x].children[k] == c;
                assert(rank[nodes[x].children[k] as int] > rank[x]);
                let f = node_of(sub.place);
                assert(f != x);
                let left = segments_of(rest2.skip(sub.consumed));
                assert(rest.skip(w.consumed) == rest2.skip(sub.consumed));
                let p = placed(nodes, sub.place, left, v);
                lemma_found_again(nodes, rank, c, rest2, v);
                lemma_placed_elsewhere(nodes, sub.place, left, v, x);
                lemma_placed_kept(nodes, sub.place, left, v);
                let keep = kept(nodes, sub.place);
                assert(0 <= keep <= nodes[f].prefix.len());
                assert forall|i: int|
                    0 <= i < nodes[x].children.len() && nodes[x].children[i] != f implies p.0[(
                #[trigger] nodes[x].children[i]) as int].prefix
                    == nodes[nodes[x].children[i] as int].prefix by {
                    lemma_placed_elsewhere(nodes, sub.place, left, v, nodes[x].children[i] as int);
                }
                if c == f {
                    lemma_first_step(nodes, rank, c, rest2);
                }
                lemma_pick_same(nodes, p.0, nodes[x].children, rest2, 0, f, keep);
                if c == f {
                    assert(p.0[c].prefix.len() > 0);
                } else {
                    lemma_placed_elsewhere(nodes, sub.place, left, v, c);
                }
            },
        }
    }
}

/// A lookup that ends at the node it started from has not left it. If it
/// splits that node, and the node's label starts with the path's next
/// byte, the split keeps at least that byte.
pub proof fn lemma_first_step<T>(nodes: Seq<NodeView<T>>, rank: Seq<int>, x: int, rest: Seq<u8>)
    requires
        wf_nodes(nodes),
        ranked(nodes, rank),
        0 <= x < nodes.len(),
        clean(rest),
        node_of(walk(nodes, x, rest, false).place) == x,
        nodes[x].prefix.len() > 0,
        nodes[x].prefix[0] == rest[0],
    ensures
        kept(nodes, walk(nodes, x, rest, false).place) >= 1,
{
    let prefix = nodes[x].prefix;
    let adv = passed(rest, prefix, false);
    let m = matched(rest, prefix, false);
    let rest2 = rest.skip(adv);
    lemma_step_clean(rest, prefix);
    if m < prefix.len() {
    } else if at_terminal(rest2) {
    } else {
        lemma_pick_child(nodes, nodes[x].children, rest2, 0);
        lemma_pick_member(nodes, nodes[x].children, rest2, 0);
        match pick_child(nodes, nodes[x].children, rest2, 0) {
            None => {},
            Some(c) => {
                lemma_walk_rank(nodes, rank, c, rest2, false);
                let k = choose|k: int| 0 <= k < nodes[x].children.len() && nodes[x].children[k] == c;
                assert(rank[nodes[x].children[k] as int] > rank[x]);
            },
        }
    }
}

/// The value stored for a clean path is the value that the next lookup of
/// the same path finds: whatever the trie held before, and wherever the
/// path came to rest in it.
pub proof fn law_stored_is_found<T>(nodes: Seq<NodeView<T>>, rest: Seq<u8>, v: T)
    requires
        wf_nodes(nodes),
        acyclic(nodes),
        clean(rest),
        nodes.len() + rest.len() + 1 < usize::MAX,
    ensures
        ({
            let w = locate(nodes, rest, false);
            let seen = visited(nodes, w.trail);
            let p = placed(seen, w.place, segments_of(rest.skip(w.consumed)), v);
            &&& stored(p.0, rest, false) == Some(v)
        }),
{
    let w = locate(nodes, rest, false);
    let seen = visited(nodes, w.trail);
    let left = segments_of(rest.skip(w.consumed));
    let p = placed(seen, w.place, left, v);
    lemma_visited_shape(nodes, w.trail);
    let rank = choose|rank: Seq<int>| ranked(nodes, rank);
    assert(ranked(seen, rank)) by {
        assert forall|i: int, j: int|
            0 <= i < seen.len() && 0 <= j < seen[i].children.len() && seen[i].children[j]
                < seen.len() implies rank[(#[trigger] seen[i].children[j]) as int] > rank[i] by {
            assert(seen[i].children == nodes[i].children);
            assert(nodes[i].children[j] == seen[i].children[j]);
        }
    }
    assert(wf_nodes(seen)) by {
        assert forall|i: int, j: int|
            0 <= i < seen.len() && 0 <= j < seen[i].children.len() implies (
        #[trigger] seen[i].children[j]) < seen.len() by {
            assert(seen[i].children == nodes[i].children);
            assert(nodes[i].children[j] == seen[i].children[j]);
        }
    }
    assert(seen[0].prefix == nodes[0].prefix && seen[0].children == nodes[0].children);
    lemma_clean_head(rest);
    lemma_clean_segments(rest);
    lemma_segments_count(rest);
    if nodes[0].prefix.len() == 0 && nodes[0].children.len() == 0 {
        assert(seen == nodes);
        assert(rest.skip(0) == rest);
        let n = nodes.len() as int;
        let e = segment_end(rest, SLASH);
        let base = with_prefix(nodes, 0, left[0]);
        let tail = left.skip(1);
        let c = chain(base, 0, tail, nodes[0].priority);
        lemma_chain_shape(base, 0, tail, nodes[0].priority);
        let q = with_value(c.0, c.1, v);
        assert(q == p.0);
        assert forall|j: int| 0 <= j < q.len() implies (#[trigger] q[j]).prefix == c.0[j].prefix
            && q[j].children == c.0[j].children by {}
        assert(q[0].prefix == left[0]);
        assert(rest.subrange(0, e) == rest.take(e));
        lemma_common_len_unique(rest.take(e), rest.take(e), e);
        assert(match_run(rest, q[0].prefix) == (e, e));
        lemma_clean_end(rest);
        if rest[e] == SPACE {
            assert(tail.len() == 0);
        } else {
            let rest2 = rest.skip(e + 1);
            assert(passed(rest, q[0].prefix, false) == e + 1);
            lemma_clean_head(rest2);
            lemma_clean_segments(rest2);
            assert((seq![rest.take(e)] + segments_of(rest2)).skip(1) == segments_of(rest2));
            assert(tail == segments_of(rest2));
            assert(q[0].children == nodes[0].children.push(n as usize));
            assert(q[n].prefix == tail[0]);
            assert(q[n].prefix[0] == rest2[0]);
            assert(child_matches(q, n, rest2));
            lemma_pick_pushed(q, nodes[0].children, n as usize, rest2, 0);
            assert(tail.skip(0) == tail);
            assert forall|j: int| n <= j < n + tail.len() implies (#[trigger] q[j]).prefix == tail[j
                - n] && q[j].children == if j == n + tail.len() - 1 {
                Seq::<usize>::empty()
            } else {
                seq![(j + 1) as usize]
            } by {
                assert(c.0[j].prefix == tail[j - n]);
            }
            lemma_walk_line(q, n, rest2, tail, n);
        }
    } else {
        law_lookup_ignores_counters(seen, nodes, 0, rest, false);
        assert(w == walk(seen, 0, rest, false));
        lemma_found_again(seen, rank, 0, rest, v);
        lemma_walk_in_range(seen, 0, rest, false);
        if node_of(w.place) != 0 {
            lemma_placed_elsewhere(seen, w.place, left, v, 0);
        }
        match w.place {
            Place::Split(i, common) => {
                lemma_chain_shape(split_at(seen, i, common), i, left, 1);
            },
            Place::Create(i) => {
                lemma_chain_shape(seen, i, left, 1);
            },
            _ => {},
        }
    }
}

/// A child that is picked is still picked when another child is added
/// behind the others and the labels of the others stay as they are.
pub proof fn lemma_pick_front<T>(
    nodes: Seq<NodeView<T>>,
    after: Seq<NodeView<T>>,
    children: Seq<usize>,
    fresh: usize,
    rest: Seq<u8>,
    from: int,
)
    requires
        0 <= from,
        after.len() >= nodes.len(),
        pick_child(nodes, children, rest, from) is Some,
        forall|k: int|
            0 <= k < children.len() ==> (#[trigger] children[k]) < nodes.len()
                && after[children[k] as int].prefix == nodes[children[k] as int].prefix,
    ensures
        pick_child(after, children.push(fresh), rest, from) == pick_child(
            nodes,
            children,
            rest,
            from,
        ),
    decreases children.len() - from,
{
    let all = children.push(fresh);
    if from < children.len() {
        assert(all[from] == children[from]);
        assert(children[from] < nodes.len());
        assert(after[children[from] as int].prefix == nodes[children[from] as int].prefix);
        if !child_matches(nodes, children[from] as int, rest) {
            lemma_pick_front(nodes, after, children, fresh, rest, from + 1);
        }
    }
}

/// Where a lookup of a clean path stops. It stands in front of a clean
/// path or of the closing space, and in front of a clean path if it ends
/// past a node.
pub proof fn lemma_walk_stop<T>(nodes: Seq<NodeView<T>>, x: int, rest: Seq<u8>)
    requires
        0 <= x < nodes.len(),
        clean(rest),
    ensures
        ({
            let w = walk(nodes, x, rest, false);
            &&& 0 <= w.consumed <= rest.len()
            &&& at_path(rest.skip(w.consumed))
            &&& w.place is Create ==> clean(rest.skip(w.consumed))
        }),
    decreases 2 * rest.len() + (if nodes[x].prefix.len() == 0 {
        1int
    } else {
        0int
    }),
{
    let prefix = nodes[x].prefix;
    let adv = passed(rest, prefix, false);
    let rest2 = rest.skip(adv);
    lemma_step_clean(rest, prefix);
    if matched(rest, prefix, false) < prefix.len() {
    } else if at_terminal(rest2) {
    } else {
        lemma_pick_child(nodes, nodes[x].children, rest2, 0);
        match pick_child(nodes, nodes[x].children, rest2, 0) {
            Some(c) => {
                if nodes[c].prefix.len() > 0 && (prefix.len() == 0 || rest2.len() < rest.len()) {
                    lemma_walk_stop(nodes, c, rest2);
                    let sub = walk(nodes, c, rest2, false);
                    assert(rest.skip(adv + sub.consumed) == rest2.skip(sub.consumed));
                }
            },
            None => {},
        }
    }
}

/// A lookup of a clean path that ends with a split below the node it
/// started from keeps at least one byte of the label that is split.
pub proof fn lemma_walk_keeps_first<T>(
    nodes: Seq<NodeView<T>>,
    rank: Seq<int>,
    x: int,
    rest: Seq<u8>,
)
    requires
        wf_nodes(nodes),
        ranked(nodes, rank),
        0 <= x < nodes.len(),
        clean(rest),
        node_of(walk(nodes, x, rest, false).place) != x,
    ensures
        kept(nodes, walk(nodes, x, rest, false).place) >= 1,
    decreases 2 * rest.len() + (if nodes[x].prefix.len() == 0 {
        1int
    } else {
        0int
    }),
{
    let prefix = nodes[x].prefix;
    let adv = passed(rest, prefix, false);
    let rest2 = rest.skip(adv);
    lemma_step_clean(rest, prefix);
    if matched(rest, prefix, false) < prefix.len() {
    } else if at_terminal(rest2) {
    } else {
        lemma_pick_child(nodes, nodes[x].children, rest2, 0);
        match pick_child(nodes, nodes[x].children, rest2, 0) {
            Some(c) => {
                if nodes[c].prefix.len() > 0 && (prefix.len() == 0 || rest2.len() < rest.len()) {
                    lemma_clean_head(rest2);
                    let sub = walk(nodes, c, rest2, false);
                    if node_of(sub.place) == c {
                        lemma_first_step(nodes, rank, c, rest2);
                    } else {
                        lemma_walk_keeps_first(nodes, rank, c, rest2);
                    }
                }
            },
            None => {},
        }
    }
}

/// A path whose lookup from the node `x` on ends at a node still ends at a
/// node after a value was stored at `place` with the segments `left` below
/// it, and that node has the value that the node had where it ended
/// before.
pub proof fn lemma_still_held<T>(
    nodes: Seq<NodeView<T>>,
    rank: Seq<int>,
    x: int,
    rest: Seq<u8>,
    place: Place,
    left: Seq<Seq<u8>>,
    v: T,
)
    requires
        wf_nodes(nodes),
        ranked(nodes, rank),
        0 <= x < nodes.len(),
        rank[x] >= rank[0],
        nodes.len() + left.len() + 1 < usize::MAX,
        clean(rest),
        walk(nodes, x, rest, false).place is Exact,
        !(place is Root),
        0 <= node_of(place) < nodes.len(),
        place matches Place::Split(i, k) ==> 0 <= k < nodes[i].prefix.len(),
        place is Create ==> left.len() >= 1,
        place is Exact ==> node_of(place) != node_of(walk(nodes, x, rest, false).place),
        node_of(place) != 0 ==> kept(nodes, place) >= 1,
    ensures
        ({
            let q = placed(nodes, place, left, v).0;
            &&& walk(q, x, rest, false).place matches Place::Exact(j)
            &&& 0 <= j < q.len()
            &&& q[j].value == nodes[node_of(walk(nodes, x, rest, false).place)].value
        }),
    decreases 2 * rest.len() + (if nodes[x].prefix.len() == 0 {
        1int
    } else {
        0int
    }),
{
    let f = node_of(place);
    let p = placed(nodes, place, left, v);
    let q = p.0;
    let n = nodes.len() as int;
    let prefix = nodes[x].prefix;
    let adv = passed(rest, prefix, false);
    let rest2 = rest.skip(adv);
    lemma_step_clean(rest, prefix);
    lemma_match_run(rest, prefix);
    lemma_placed_kept(nodes, place, left, v);
    lemma_pick_child(nodes, nodes[x].children, rest2, 0);
    lemma_pick_member(nodes, nodes[x].children, rest2, 0);
    assert(matched(rest, prefix, false) == prefix.len());
    assert forall|i: int| 0 <= i < nodes[x].children.len() implies (
    #[trigger] nodes[x].children[i]) < nodes.len() && rank[nodes[x].children[i] as int]
        > rank[x] by {}
    if x != f {
        lemma_placed_elsewhere(nodes, place, left, v, x);
        lemma_target(nodes, place, left, v);
        law_store_keeps_values(nodes, place, left, v, x);
        if at_terminal(rest2) {
        } else {
            let c = pick_child(nodes, nodes[x].children, rest2, 0)->0;
            assert forall|i: int|
                0 <= i < nodes[x].children.len() && nodes[x].children[i] != f implies q[(
            #[trigger] nodes[x].children[i]) as int].prefix
                == nodes[nodes[x].children[i] as int].prefix by {
                lemma_placed_elsewhere(nodes, place, left, v, nodes[x].children[i] as int);
            }
            lemma_pick_same(nodes, q, nodes[x].children, rest2, 0, f, kept(nodes, place));
            if c != f {
                lemma_placed_elsewhere(nodes, place, left, v, c);
            }
            lemma_still_held(nodes, rank, c, rest2, place, left, v);
        }
    } else {
        lemma_target(nodes, place, left, v);
        match place {
            Place::Root => {},
            Place::Exact(_) => {
                assert(q[x].prefix == prefix && q[x].children == nodes[x].children);
                let c = pick_child(nodes, nodes[x].children, rest2, 0)->0;
                assert forall|i: int| 0 <= i < nodes[x].children.len() implies q[(
                #[trigger] nodes[x].children[i]) as int].prefix
                    == nodes[nodes[x].children[i] as int].prefix by {}
                lemma_pick_same(nodes, q, nodes[x].children, rest2, 0, f, kept(nodes, place));
                lemma_still_held(nodes, rank, c, rest2, place, left, v);
            },
            Place::Create(_) => {
                lemma_chain_shape(nodes, x, left, 1);
                let c0 = chain(nodes, x, left, 1);
                assert forall|j: int| 0 <= j < q.len() implies (#[trigger] q[j]).prefix
                    == c0.0[j].prefix && q[j].children == c0.0[j].children by {}
                assert(q[x].prefix == prefix);
                assert(q[x].children == nodes[x].children.push(n as usize));
                if at_terminal(rest2) {
                    assert(q[x].value == nodes[x].value);
                } else {
                    let c = pick_child(nodes, nodes[x].children, rest2, 0)->0;
                    assert forall|i: int| 0 <= i < nodes[x].children.len() implies (
                    #[trigger] nodes[x].children[i]) < nodes.len() && q[nodes[x].children[i] as int].prefix
                        == nodes[nodes[x].children[i] as int].prefix by {
                        assert(rank[nodes[x].children[i] as int] > rank[x]);
                    }
                    lemma_pick_front(nodes, q, nodes[x].children, n as usize, rest2, 0);
                    lemma_placed_elsewhere(nodes, place, left, v, c);
                    lemma_still_held(nodes, rank, c, rest2, place, left, v);
                }
            },
            Place::Split(_, k) => {
                let base = split_at(nodes, x, k);
                lemma_chain_shape(base, x, left, 1);
                let c0 = chain(base, x, left, 1);
                assert forall|j: int| 0 <= j < q.len() implies (#[trigger] q[j]).prefix
                    == c0.0[j].prefix && q[j].children == c0.0[j].children by {}
                let head = prefix.take(k);
                let more = prefix.skip(k);
                assert(q[x].prefix == head);
                assert(base[x].children == seq![n as usize]);
                assert(q[x].children.len() >= 1 && q[x].children[0] == n as usize) by {
                    if left.len() > 0 {
                        assert(q[x].children == seq![n as usize].push((n + 1) as usize));
                    }
                }
                assert(q[n].prefix == more);
                assert(q[n].children == nodes[x].children);
                assert(q[n].value == nodes[x].value) by {
                    assert(c0.0[n].value == base[n].value);
                }
                let mid = rest.skip(passed(rest, head, false));
                if k > 0 {
                    lemma_match_split(rest, prefix, k);
                    lemma_match_run(rest, head);
                } else {
                    assert(rest.skip(0) == rest);
                    assert(more == prefix);
                    lemma_clean_head(rest);
                }
                lemma_clean_head(mid);
                assert(matched(rest, head, false) == head.len());
                assert(mid[0] == prefix[k]);
                assert(more[0] == prefix[k]);
                assert(child_matches(q, n, mid));
                assert(q[x].children[0] == n as usize);
                assert(pick_child(q, q[x].children, mid, 0) == Some(n));
                assert(head.len() == 0 || mid.len() < rest.len());
                assert(walk(q, x, rest, false).place == walk(q, n, mid, false).place);
                lemma_match_run(mid, more);
                assert(matched(mid, more, false) == more.len());
                let stop = mid.skip(passed(mid, more, false));
                assert(stop == rest2);
                if at_terminal(rest2) {
                } else {
                    let c = pick_child(nodes, nodes[x].children, rest2, 0)->0;
                    assert forall|i: int| 0 <= i < nodes[x].children.len() implies (
                    #[trigger] nodes[x].children[i]) < nodes.len() && nodes[x].children[i] != x
                        && q[nodes[x].children[i] as int].prefix
                        == nodes[nodes[x].children[i] as int].prefix by {
                        assert(rank[nodes[x].children[i] as int] > rank[x]);
                        lemma_placed_elsewhere(
                            nodes,
                            place,
                            left,
                            v,
                            nodes[x].children[i] as int,
                        );
                    }
                    lemma_pick_same(nodes, q, nodes[x].children, rest2, 0, x, k);
                    assert(pick_child(q, q[n].children, rest2, 0) == Some(c));
                    lemma_placed_elsewhere(nodes, place, left, v, c);
                    assert(stop.len() < mid.len());
                    assert(walk(q, n, mid, false).place == walk(q, c, rest2, false).place);
                    lemma_still_held(nodes, rank, c, rest2, place, left, v);
                }
            },
        }
    }
}

/// A value that is stored goes to the node where the path ended, or to a
/// new node.
pub proof fn lemma_target<T>(nodes: Seq<NodeView<T>>, place: Place, left: Seq<Seq<u8>>, v: T)
    requires
        !(place is Root),
        0 <= node_of(place) < nodes.len(),
    ensures
        placed(nodes, place, left, v).1 == node_of(place) || placed(nodes, place, left, v).1
            >= nodes.len(),
        !(place is Exact) && left.len() >= 1 ==> placed(nodes, place, left, v).1 >= nodes.len(),
        0 <= placed(nodes, place, left, v).1 < placed(nodes, place, left, v).0.len(),
{
    match place {
        Place::Root => {},
        Place::Exact(i) => {},
        Place::Split(i, k) => {
            lemma_chain_shape(split_at(nodes, i, k), i, left, 1);
        },
        Place::Create(i) => {
            lemma_chain_shape(nodes, i, left, 1);
        },
    }
}

/// Storing a value for one path does not disturb another. A clean path
/// that the trie holds a value for still has that value after a value was
/// stored for any other clean path: the next lookup of the first path finds
/// it.
pub proof fn law_store_keeps_held<T>(nodes: Seq<NodeView<T>>, held: Seq<u8>, rest: Seq<u8>, v: T)
    requires
        wf_nodes(nodes),
        acyclic(nodes),
        clean(held),
        clean(rest),
        nodes.len() + rest.len() + 1 < usize::MAX,
        stored(nodes, held, false) is Some,
        stored(nodes, rest, false) is None,
    ensures
        ({
            let w = locate(nodes, rest, false);
            let seen = visited(nodes, w.trail);
            let q = placed(seen, w.place, segments_of(rest.skip(w.consumed)), v).0;
            stored(q, held, false) == stored(nodes, held, false)
        }),
{
    let w = locate(nodes, rest, false);
    let seen = visited(nodes, w.trail);
    let left = segments_of(rest.skip(w.consumed));
    let q = placed(seen, w.place, left, v).0;
    let at = node_of(locate(nodes, held, false).place);
    lemma_visited_shape(nodes, w.trail);
    let rank = choose|rank: Seq<int>| ranked(nodes, rank);
    assert(ranked(seen, rank)) by {
        assert forall|i: int, j: int|
            0 <= i < seen.len() && 0 <= j < seen[i].children.len() && seen[i].children[j]
                < seen.len() implies rank[(#[trigger] seen[i].children[j]) as int] > rank[i] by {
            assert(seen[i].children == nodes[i].children);
            assert(nodes[i].children[j] == seen[i].children[j]);
        }
    }
    assert(wf_nodes(seen)) by {
        assert forall|i: int, j: int|
            0 <= i < seen.len() && 0 <= j < seen[i].children.len() implies (
        #[trigger] seen[i].children[j]) < seen.len() by {
            assert(seen[i].children == nodes[i].children);
            assert(nodes[i].children[j] == seen[i].children[j]);
        }
    }
    assert(seen[0].prefix == nodes[0].prefix && seen[0].children == nodes[0].children);
    law_lookup_ignores_counters(seen, nodes, 0, rest, false);
    law_lookup_ignores_counters(seen, nodes, 0, held, false);
    lemma_walk_in_range(nodes, 0, held, false);
    lemma_walk_in_range(seen, 0, rest, false);
    lemma_walk_stop(seen, 0, rest);
    lemma_segments_count(rest.skip(w.consumed));
    if w.place is Create {
        lemma_clean_segments(rest.skip(w.consumed));
    }
    if node_of(w.place) != 0 {
        lemma_walk_keeps_first(seen, rank, 0, rest);
    }
    assert(seen[at].value == nodes[at].value);
    lemma_still_held(seen, rank, 0, held, w.place, left, v);
    lemma_clean_head(held);
    lemma_step_clean(held, q[0].prefix);
    assert(!(q[0].prefix.len() == 0 && q[0].children.len() == 0)) by {
        if q[0].prefix.len() == 0 && q[0].children.len() == 0 {
            assert(held.skip(0) == held);
            assert(pick_child(q, q[0].children, held, 0) is None);
        }
    }
}

} // verus!
