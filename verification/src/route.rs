//! A radix trie over path segments that remembers one value per path. The
//! nodes stand in one growing list and name each other by index, so a node
//! once made keeps its place. Their labels and their lists of children live
//! in a bump arena.

use vstd::prelude::*;
use crate::arena::{arena_bytes, arena_indices, bytes_in, bytes_of, bytes_truncate, empty_in,
    index_push, indices_in, indices_of, leaked_arena};
use crate::parse::{at_terminal, lead_of, lemma_match_run, lemma_next_segment, match_run,
    PathIter, SLASH};

verus! {

/// One node of the trie: the label of the edge that leads to it, a visit
/// counter, its children by their index in the trie, and the value stored at
/// it.
pub struct Node<'b, T> {
    prefix: bumpalo::collections::Vec<'b, u8>,
    priority: u32,
    children: bumpalo::collections::Vec<'b, usize>,
    value: Option<T>,
}

/// What a node holds, as plain values.
pub struct NodeView<T> {
    pub prefix: Seq<u8>,
    pub priority: u32,
    pub children: Seq<usize>,
    pub value: Option<T>,
}

/// Where a path comes to rest in the trie.
pub enum Place {
    /// The trie is empty: the path becomes the root's own.
    Root,
    /// The path ends at this node, together with the node's label.
    Exact(int),
    /// The path matches so many bytes of this node's label and no more: it
    /// goes on otherwise, or it ends there.
    Split(int, int),
    /// The path runs past this node, and none of its children continues it.
    Create(int),
}

/// The course of one lookup: where it ends, how many bytes of the path it
/// passes, and the nodes it visits in order.
pub struct Walk {
    pub place: Place,
    pub consumed: int,
    pub trail: Seq<int>,
}

/// A visit counter one higher, unless it is full.
pub open spec fn bump(p: u32) -> u32 {
    if p < u32::MAX {
        (p + 1) as u32
    } else {
        p
    }
}

/// The trie has a root, and children are nodes of the trie.
pub open spec fn wf_nodes<T>(nodes: Seq<NodeView<T>>) -> bool {
    &&& nodes.len() >= 1
    &&& forall|i: int, j: int|
        0 <= i < nodes.len() && 0 <= j < nodes[i].children.len() ==> (
        #[trigger] nodes[i].children[j]) < nodes.len()
}

/// `rank` puts every child above its parent.
pub open spec fn ranked<T>(nodes: Seq<NodeView<T>>, rank: Seq<int>) -> bool {
    &&& rank.len() == nodes.len()
    &&& forall|i: int, j: int|
        0 <= i < nodes.len() && 0 <= j < nodes[i].children.len() && nodes[i].children[j]
            < nodes.len() ==> rank[(#[trigger] nodes[i].children[j]) as int] > rank[i]
}

/// No node is its own descendant: the nodes can be ranked so that every
/// child stands above its parent.
pub open spec fn acyclic<T>(nodes: Seq<NodeView<T>>) -> bool {
    exists|rank: Seq<int>| ranked(nodes, rank)
}

/// Two tries with the same children, node by node.
pub open spec fn same_children<T>(a: Seq<NodeView<T>>, b: Seq<NodeView<T>>) -> bool {
    &&& a.len() == b.len()
    &&& forall|i: int| 0 <= i < a.len() ==> (#[trigger] a[i]).children == b[i].children
}

/// Whether a trie is acyclic depends on the children of its nodes only.
pub proof fn lemma_acyclic_children<T>(a: Seq<NodeView<T>>, b: Seq<NodeView<T>>)
    requires
        acyclic(a),
        same_children(a, b),
    ensures
        acyclic(b),
{
    let rank = choose|rank: Seq<int>| ranked(a, rank);
    assert(ranked(b, rank)) by {
        assert forall|i: int, j: int|
            0 <= i < b.len() && 0 <= j < b[i].children.len() && b[i].children[j]
                < b.len() implies rank[(#[trigger] b[i].children[j]) as int] > rank[i] by {
            assert(a[i].children[j] == b[i].children[j]);
        }
    }
}

/// A new leaf keeps the trie acyclic.
pub proof fn lemma_acyclic_grown<T>(
    nodes: Seq<NodeView<T>>,
    parent: int,
    seg: Seq<u8>,
    priority: u32,
)
    requires
        wf_nodes(nodes),
        acyclic(nodes),
        0 <= parent < nodes.len() <= usize::MAX,
    ensures
        acyclic(grown(nodes, parent, seg, priority)),
{
    let rank = choose|rank: Seq<int>| ranked(nodes, rank);
    let g = grown(nodes, parent, seg, priority);
    let up = rank.push(rank[parent] + 1);
    assert(ranked(g, up)) by {
        assert forall|i: int, j: int|
            0 <= i < g.len() && 0 <= j < g[i].children.len() && g[i].children[j]
                < g.len() implies up[(#[trigger] g[i].children[j]) as int] > up[i] by {
            if i < nodes.len() && j < nodes[i].children.len() {
                assert(g[i].children[j] == nodes[i].children[j]);
                assert(rank[nodes[i].children[j] as int] > rank[i]);
            }
        }
    }
}

/// Splitting a node keeps the trie acyclic.
pub proof fn lemma_acyclic_split<T>(nodes: Seq<NodeView<T>>, i: int, common: int)
    requires
        wf_nodes(nodes),
        acyclic(nodes),
        0 <= i < nodes.len() <= usize::MAX,
    ensures
        acyclic(split_at(nodes, i, common)),
{
    let rank = choose|rank: Seq<int>| ranked(nodes, rank);
    let s = split_at(nodes, i, common);
    if 0 <= common < nodes[i].prefix.len() {
        let n = nodes.len() as int;
        let up = Seq::new(s.len(), |x: int| if x < n { 2 * rank[x] } else { 2 * rank[i] + 1 });
        assert(ranked(s, up)) by {
            assert forall|x: int, j: int|
                0 <= x < s.len() && 0 <= j < s[x].children.len() && s[x].children[j]
                    < s.len() implies up[(#[trigger] s[x].children[j]) as int] > up[x] by {
                if x == i {
                } else if x < n {
                    assert(s[x].children[j] == nodes[x].children[j]);
                    assert(rank[nodes[x].children[j] as int] > rank[x]);
                } else {
                    assert(s[x].children[j] == nodes[i].children[j]);
                    assert(rank[nodes[i].children[j] as int] > rank[i]);
                }
            }
        }
    }
}

/// The byte by which a child is chosen: the next byte of the path, or the
/// one behind it when the next byte is a slash.
pub open spec fn next_path_byte(rest: Seq<u8>) -> Option<u8> {
    if rest.len() == 0 {
        None
    } else if rest[0] != SLASH {
        Some(rest[0])
    } else if rest.len() > 1 {
        Some(rest[1])
    } else {
        None
    }
}

/// The child `c` continues the path: its label starts with the path's next
/// byte.
pub open spec fn child_matches<T>(nodes: Seq<NodeView<T>>, c: int, rest: Seq<u8>) -> bool {
    &&& 0 <= c < nodes.len()
    &&& nodes[c].prefix.len() > 0
    &&& next_path_byte(rest) == Some(nodes[c].prefix[0])
}

/// The first of `children`, from position `from` on, that continues the
/// path.
pub open spec fn pick_child<T>(
    nodes: Seq<NodeView<T>>,
    children: Seq<usize>,
    rest: Seq<u8>,
    from: int,
) -> Option<int>
    decreases children.len() - from,
{
    if from < 0 || from >= children.len() {
        None
    } else if child_matches(nodes, children[from] as int, rest) {
        Some(children[from] as int)
    } else {
        pick_child(nodes, children, rest, from + 1)
    }
}

/// Number of path bytes passed at a node with the label `prefix`: what the
/// match passes, and one slash behind it. A node without label passes
/// nothing.
pub open spec fn passed(rest: Seq<u8>, prefix: Seq<u8>, done: bool) -> int {
    if prefix.len() == 0 {
        0
    } else if done {
        lead_of(rest)
    } else {
        match_run(rest, prefix).1 + lead_of(rest.skip(match_run(rest, prefix).1))
    }
}

/// Number of label bytes that the path matches at a node.
pub open spec fn matched(rest: Seq<u8>, prefix: Seq<u8>, done: bool) -> int {
    if done {
        0
    } else {
        match_run(rest, prefix).0
    }
}

/// The lookup of the path at `rest` from the node `cur` downwards. At each
/// node the path is matched against the label. A path that does not match
/// the whole label splits it, also when the path ends within the label. A
/// path that ends together with the label rests at the node. Otherwise the
/// lookup goes on in the first child that continues the path, and rests
/// where there is none.
pub open spec fn walk<T>(nodes: Seq<NodeView<T>>, cur: int, rest: Seq<u8>, done: bool) -> Walk
    decreases 2 * rest.len() + (if nodes[cur].prefix.len() == 0 {
        1int
    } else {
        0int
    }),
{
    let prefix = nodes[cur].prefix;
    let adv = passed(rest, prefix, done);
    let rest2 = rest.skip(adv);
    if matched(rest, prefix, done) < prefix.len() {
        Walk {
            place: Place::Split(cur, matched(rest, prefix, done)),
            consumed: adv,
            trail: seq![cur],
        }
    } else if done || at_terminal(rest2) {
        Walk { place: Place::Exact(cur), consumed: adv, trail: seq![cur] }
    } else {
        match pick_child(nodes, nodes[cur].children, rest2, 0) {
            Some(c) => if nodes[c].prefix.len() > 0 && (prefix.len() == 0 || rest2.len()
                < rest.len()) {
                let w = walk(nodes, c, rest2, done);
                Walk { place: w.place, consumed: adv + w.consumed, trail: seq![cur] + w.trail }
            } else {
                Walk { place: Place::Create(cur), consumed: adv, trail: seq![cur] }
            },
            None => Walk { place: Place::Create(cur), consumed: adv, trail: seq![cur] },
        }
    }
}

/// The lookup of a path in the whole trie. Only a root without label and
/// children is the empty trie.
pub open spec fn locate<T>(nodes: Seq<NodeView<T>>, rest: Seq<u8>, done: bool) -> Walk {
    if nodes[0].prefix.len() == 0 && nodes[0].children.len() == 0 {
        Walk { place: Place::Root, consumed: 0, trail: Seq::empty() }
    } else {
        walk(nodes, 0, rest, done)
    }
}

/// The trie with the visit counter of node `i` bumped.
pub open spec fn bump_at<T>(nodes: Seq<NodeView<T>>, i: int) -> Seq<NodeView<T>> {
    if 0 <= i < nodes.len() {
        nodes.update(i, NodeView { priority: bump(nodes[i].priority), ..nodes[i] })
    } else {
        nodes
    }
}

/// The trie after a lookup has visited the nodes of `trail`.
pub open spec fn visited<T>(nodes: Seq<NodeView<T>>, trail: Seq<int>) -> Seq<NodeView<T>>
    decreases trail.len(),
{
    if trail.len() == 0 {
        nodes
    } else {
        bump_at(visited(nodes, trail.drop_last()), trail.last())
    }
}

/// A new node with the label `prefix`, without children or value.
pub open spec fn leaf<T>(prefix: Seq<u8>, priority: u32) -> NodeView<T> {
    NodeView { prefix, priority, children: Seq::empty(), value: None }
}

/// The trie with one more node, labelled `seg`, as the last child of
/// `parent`.
pub open spec fn grown<T>(nodes: Seq<NodeView<T>>, parent: int, seg: Seq<u8>, priority: u32) -> Seq<
    NodeView<T>,
> {
    let more = nodes.push(leaf(seg, priority));
    more.update(
        parent,
        NodeView { children: more[parent].children.push(nodes.len() as usize), ..more[parent] },
    )
}

/// The trie with a chain of new nodes below `parent`, one for each of
/// `segs`, each the only child of the one before; and the index of the last
/// of them, which is `parent` when there are no segments.
pub open spec fn chain<T>(
    nodes: Seq<NodeView<T>>,
    parent: int,
    segs: Seq<Seq<u8>>,
    priority: u32,
) -> (Seq<NodeView<T>>, int)
    decreases segs.len(),
{
    if segs.len() == 0 {
        (nodes, parent)
    } else {
        chain(grown(nodes, parent, segs[0], priority), nodes.len() as int, segs.skip(1), priority)
    }
}

/// The trie with `v` stored at node `i`.
pub open spec fn with_value<T>(nodes: Seq<NodeView<T>>, i: int, v: T) -> Seq<NodeView<T>> {
    nodes.update(i, NodeView { value: Some(v), ..nodes[i] })
}

/// The trie with the label of node `i` replaced.
pub open spec fn with_prefix<T>(nodes: Seq<NodeView<T>>, i: int, prefix: Seq<u8>) -> Seq<
    NodeView<T>,
> {
    nodes.update(i, NodeView { prefix, ..nodes[i] })
}

/// The trie with node `i` split after `common` bytes of its label. The node
/// keeps the first `common` bytes. A new node gets the rest of the label,
/// the children and the value, and becomes the only child of node `i`. A
/// label of no more than `common` bytes is not split.
pub open spec fn split_at<T>(nodes: Seq<NodeView<T>>, i: int, common: int) -> Seq<NodeView<T>> {
    let n = nodes[i];
    if 0 <= common < n.prefix.len() {
        nodes.push(
            NodeView {
                prefix: n.prefix.skip(common),
                priority: n.priority,
                children: n.children,
                value: n.value,
            },
        ).update(
            i,
            NodeView {
                prefix: n.prefix.take(common),
                priority: n.priority,
                children: seq![nodes.len() as usize],
                value: None,
            },
        )
    } else {
        nodes
    }
}

/// The trie after `v` has been stored for a path that came to rest at
/// `place` with the segments `segs` still to go, and the index of the node
/// that holds `v`.
pub open spec fn placed<T>(nodes: Seq<NodeView<T>>, place: Place, segs: Seq<Seq<u8>>, v: T) -> (
    Seq<NodeView<T>>,
    int,
) {
    match place {
        Place::Exact(i) => (with_value(nodes, i, v), i),
        Place::Root => if segs.len() == 0 {
            (with_value(nodes, 0, v), 0)
        } else {
            let c = chain(with_prefix(nodes, 0, segs[0]), 0, segs.skip(1), nodes[0].priority);
            (with_value(c.0, c.1, v), c.1)
        },
        Place::Split(i, common) => {
            let c = chain(split_at(nodes, i, common), i, segs, 1);
            (with_value(c.0, c.1, v), c.1)
        },
        Place::Create(i) => {
            let c = chain(nodes, i, segs, 1);
            (with_value(c.0, c.1, v), c.1)
        },
    }
}

/// The value that the trie holds for a path: the value of the node at
/// which the path ends together with the label. A path that ends within a
/// label, or where no node is, has none.
pub open spec fn stored<T>(nodes: Seq<NodeView<T>>, rest: Seq<u8>, done: bool) -> Option<T> {
    match locate(nodes, rest, done).place {
        Place::Exact(i) => nodes[i].value,
        _ => None,
    }
}

/// What a chain comes to, node by node. The nodes that were there keep
/// label, counter and value, and all but `parent` keep their children. The
/// new nodes carry the segments in order and no value. `parent` gets the
/// first of them as its last child, each new node has the next one as its
/// only child, and the last one has none.
pub proof fn lemma_chain_shape<T>(
    nodes: Seq<NodeView<T>>,
    parent: int,
    segs: Seq<Seq<u8>>,
    priority: u32,
)
    requires
        0 <= parent < nodes.len(),
    ensures
        ({
            let c = chain(nodes, parent, segs, priority);
            let n = nodes.len() as int;
            &&& c.0.len() == n + segs.len()
            &&& c.1 == if segs.len() == 0 {
                parent
            } else {
                n + segs.len() - 1
            }
            &&& forall|j: int|
                0 <= j < n ==> (#[trigger] c.0[j]).prefix == nodes[j].prefix && c.0[j].value
                    == nodes[j].value && c.0[j].priority == nodes[j].priority
            &&& forall|j: int|
                0 <= j < n && j != parent ==> (#[trigger] c.0[j]).children == nodes[j].children
            &&& c.0[parent].children == if segs.len() == 0 {
                nodes[parent].children
            } else {
                nodes[parent].children.push(n as usize)
            }
            &&& forall|j: int|
                n <= j < n + segs.len() ==> (#[trigger] c.0[j]).prefix == segs[j - n]
                    && c.0[j].value is None && c.0[j].priority == priority && c.0[j].children
                    == if j == n + segs.len() - 1 {
                    Seq::<usize>::empty()
                } else {
                    seq![(j + 1) as usize]
                }
        }),
    decreases segs.len(),
{
    if segs.len() > 0 {
        let n = nodes.len() as int;
        let g = grown(nodes, parent, segs[0], priority);
        let rest = segs.skip(1);
        lemma_chain_shape(g, n, rest, priority);
        let c = chain(nodes, parent, segs, priority);
        assert(c == chain(g, n, rest, priority));
        assert forall|j: int| n <= j < n + segs.len() implies (#[trigger] c.0[j]).prefix == segs[j
            - n] && c.0[j].value is None && c.0[j].priority == priority && c.0[j].children == if j
            == n + segs.len() - 1 {
            Seq::<usize>::empty()
        } else {
            seq![(j + 1) as usize]
        } by {
            if j == n {
                assert(g[n].children =~= Seq::<usize>::empty());
                if rest.len() > 0 {
                    assert(Seq::<usize>::empty().push((n + 1) as usize) =~= seq![(n + 1) as usize]);
                }
            } else {
                assert(rest[j - (n + 1)] == segs[j - n]);
            }
        }
    }
}

/// Storing a value invents no value: what the trie holds afterwards, it
/// held before, or it is the value stored.
pub proof fn lemma_placed_values<T>(
    nodes: Seq<NodeView<T>>,
    place: Place,
    segs: Seq<Seq<u8>>,
    v: T,
    good: spec_fn(T) -> bool,
)
    requires
        nodes.len() >= 1,
        match place {
            Place::Root => true,
            Place::Exact(i) => 0 <= i < nodes.len(),
            Place::Split(i, _) => 0 <= i < nodes.len(),
            Place::Create(i) => 0 <= i < nodes.len(),
        },
        forall|j: int| 0 <= j < nodes.len() && (#[trigger] nodes[j]).value is Some ==> good(nodes[j].value->0),
        good(v),
    ensures
        forall|j: int|
            0 <= j < placed(nodes, place, segs, v).0.len() && (#[trigger] placed(
                nodes,
                place,
                segs,
                v,
            ).0[j]).value is Some ==> good(placed(nodes, place, segs, v).0[j].value->0),
{
    let p = placed(nodes, place, segs, v).0;
    match place {
        Place::Exact(i) => {},
        Place::Root => {
            if segs.len() > 0 {
                let base = with_prefix(nodes, 0, segs[0]);
                lemma_chain_shape(base, 0, segs.skip(1), nodes[0].priority);
                let c = chain(base, 0, segs.skip(1), nodes[0].priority);
                assert forall|j: int| 0 <= j < p.len() && (#[trigger] p[j]).value is Some implies good(
                    p[j].value->0,
                ) by {
                    if j != c.1 {
                        if j < nodes.len() {
                            assert(c.0[j].value == base[j].value);
                            assert(base[j].value == nodes[j].value);
                        } else {
                            assert(c.0[j].value is None);
                        }
                    }
                }
            }
        },
        Place::Split(i, common) => {
            let base = split_at(nodes, i, common);
            lemma_chain_shape(base, i, segs, 1);
            let c = chain(base, i, segs, 1);
            assert forall|j: int| 0 <= j < p.len() && (#[trigger] p[j]).value is Some implies good(
                p[j].value->0,
            ) by {
                if j != c.1 {
                    if j < base.len() {
                        assert(c.0[j].value == base[j].value);
                        if j < nodes.len() {
                            if j != i {
                                assert(base[j].value == nodes[j].value);
                            }
                        } else {
                            assert(base[j].value == nodes[i].value);
                        }
                    } else {
                        assert(c.0[j].value is None);
                    }
                }
            }
        },
        Place::Create(i) => {
            lemma_chain_shape(nodes, i, segs, 1);
            let c = chain(nodes, i, segs, 1);
            assert forall|j: int| 0 <= j < p.len() && (#[trigger] p[j]).value is Some implies good(
                p[j].value->0,
            ) by {
                if j != c.1 {
                    if j < nodes.len() {
                        assert(c.0[j].value == nodes[j].value);
                    } else {
                        assert(c.0[j].value is None);
                    }
                }
            }
        },
    }
}

/// Storing a value disturbs no other value. Every node that was there
/// keeps its value, with two exceptions: the node that receives the new
/// value, and a node that is split, whose value moves to the node that is
/// split off, the first new one.
pub proof fn law_store_keeps_values<T>(
    nodes: Seq<NodeView<T>>,
    place: Place,
    segs: Seq<Seq<u8>>,
    v: T,
    j: int,
)
    requires
        nodes.len() >= 1,
        match place {
            Place::Root => true,
            Place::Exact(i) => 0 <= i < nodes.len(),
            Place::Split(i, _) => 0 <= i < nodes.len(),
            Place::Create(i) => 0 <= i < nodes.len(),
        },
        0 <= j < nodes.len(),
        j != placed(nodes, place, segs, v).1,
    ensures
        placed(nodes, place, segs, v).0.len() >= nodes.len(),
        match place {
            Place::Split(i, common) if i == j && 0 <= common < nodes[i].prefix.len() => {
                &&& placed(nodes, place, segs, v).0[nodes.len() as int].value == nodes[j].value
                &&& placed(nodes, place, segs, v).0[nodes.len() as int].children
                    == nodes[j].children
                &&& placed(nodes, place, segs, v).0[j].prefix + placed(
                    nodes,
                    place,
                    segs,
                    v,
                ).0[nodes.len() as int].prefix == nodes[j].prefix
            },
            _ => placed(nodes, place, segs, v).0[j].value == nodes[j].value,
        },
{
    match place {
        Place::Exact(i) => {},
        Place::Root => {
            if segs.len() > 0 {
                let base = with_prefix(nodes, 0, segs[0]);
                lemma_chain_shape(base, 0, segs.skip(1), nodes[0].priority);
                let c = chain(base, 0, segs.skip(1), nodes[0].priority);
                assert(c.0[j].value == base[j].value);
            }
        },
        Place::Split(i, common) => {
            let base = split_at(nodes, i, common);
            lemma_chain_shape(base, i, segs, 1);
            let c = chain(base, i, segs, 1);
            assert(c.0[j].value == base[j].value);
            if i == j && 0 <= common < nodes[i].prefix.len() {
                let n = nodes.len() as int;
                assert(c.0[n].value == base[n].value);
                assert(c.0[n].children == base[n].children);
                assert(c.0[n].prefix == base[n].prefix);
                assert(c.0[j].prefix == base[j].prefix);
                assert(nodes[i].prefix.take(common) + nodes[i].prefix.skip(common)
                    =~= nodes[i].prefix);
            }
        },
        Place::Create(i) => {
            lemma_chain_shape(nodes, i, segs, 1);
            let c = chain(nodes, i, segs, 1);
            assert(c.0[j].value == nodes[j].value);
        },
    }
}

/// A lookup does not depend on visit counters: in two tries of the same
/// shape, a path takes the same course.
pub proof fn law_lookup_ignores_counters<T>(
    a: Seq<NodeView<T>>,
    b: Seq<NodeView<T>>,
    cur: int,
    rest: Seq<u8>,
    done: bool,
)
    requires
        same_shape(a, b),
        0 <= cur < a.len(),
    ensures
        walk(a, cur, rest, done) == walk(b, cur, rest, done),
    decreases 2 * rest.len() + (if a[cur].prefix.len() == 0 {
        1int
    } else {
        0int
    }),
{
    let prefix = a[cur].prefix;
    assert(b[cur].prefix == prefix && b[cur].children == a[cur].children);
    let adv = passed(rest, prefix, done);
    let rest2 = rest.skip(adv);
    if matched(rest, prefix, done) < prefix.len() {
    } else if done || at_terminal(rest2) {
    } else {
        lemma_pick_child_shape(a, b, a[cur].children, rest2, 0);
        lemma_pick_child(a, a[cur].children, rest2, 0);
        match pick_child(a, a[cur].children, rest2, 0) {
            Some(c) => {
                assert(a[c].prefix == b[c].prefix);
                if a[c].prefix.len() > 0 && (prefix.len() == 0 || rest2.len() < rest.len()) {
                    law_lookup_ignores_counters(a, b, c, rest2, done);
                }
            },
            None => {},
        }
    }
}

/// A path that the trie holds a value for is found again after any
/// lookup: the visits that a lookup leaves behind change neither where
/// the path ends nor the value stored there.
pub proof fn law_hit_stays_hit<T>(
    nodes: Seq<NodeView<T>>,
    rest: Seq<u8>,
    done: bool,
    other: Seq<u8>,
    other_done: bool,
)
    requires
        nodes.len() >= 1,
    ensures
        stored(
            visited(nodes, locate(nodes, other, other_done).trail),
            rest,
            done,
        ) == stored(nodes, rest, done),
{
    let seen = visited(nodes, locate(nodes, other, other_done).trail);
    lemma_visited_shape(nodes, locate(nodes, other, other_done).trail);
    assert(seen[0].prefix == nodes[0].prefix && seen[0].children == nodes[0].children);
    law_lookup_ignores_counters(seen, nodes, 0, rest, done);
    lemma_walk_in_range(nodes, 0, rest, done);
    match locate(nodes, rest, done).place {
        Place::Exact(i) => {
            assert(seen[i].value == nodes[i].value);
        },
        _ => {},
    }
}

/// A lookup ends at a node of the trie and passes no more bytes than the
/// path has.
pub proof fn lemma_walk_in_range<T>(nodes: Seq<NodeView<T>>, cur: int, rest: Seq<u8>, done: bool)
    requires
        0 <= cur < nodes.len(),
    ensures
        match walk(nodes, cur, rest, done).place {
            Place::Root => false,
            Place::Exact(i) => 0 <= i < nodes.len(),
            Place::Split(i, common) => 0 <= i < nodes.len() && 0 <= common < nodes[i].prefix.len(),
            Place::Create(i) => 0 <= i < nodes.len(),
        },
        0 <= walk(nodes, cur, rest, done).consumed <= rest.len(),
    decreases 2 * rest.len() + (if nodes[cur].prefix.len() == 0 {
        1int
    } else {
        0int
    }),
{
    let prefix = nodes[cur].prefix;
    lemma_match_run(rest, prefix);
    let adv = passed(rest, prefix, done);
    let rest2 = rest.skip(adv);
    if matched(rest, prefix, done) < prefix.len() {
    } else if done || at_terminal(rest2) {
    } else {
        lemma_pick_child(nodes, nodes[cur].children, rest2, 0);
        match pick_child(nodes, nodes[cur].children, rest2, 0) {
            Some(c) => {
                if nodes[c].prefix.len() > 0 && (prefix.len() == 0 || rest2.len() < rest.len()) {
                    lemma_walk_in_range(nodes, c, rest2, done);
                }
            },
            None => {},
        }
    }
}

/// Two tries that differ in visit counters at most.
pub open spec fn same_shape<T>(a: Seq<NodeView<T>>, b: Seq<NodeView<T>>) -> bool {
    &&& a.len() == b.len()
    &&& forall|i: int|
        0 <= i < a.len() ==> (#[trigger] a[i]).prefix == b[i].prefix && a[i].children
            == b[i].children && a[i].value == b[i].value
}

/// Visits change visit counters only.
pub proof fn lemma_visited_shape<T>(nodes: Seq<NodeView<T>>, trail: Seq<int>)
    ensures
        same_shape(visited(nodes, trail), nodes),
    decreases trail.len(),
{
    if trail.len() > 0 {
        lemma_visited_shape(nodes, trail.drop_last());
    }
}

/// What a lookup found, with the cursor as the lookup left it.
pub enum Acquired<'r> {
    /// The trie is empty: the whole path is still to be stored.
    Root(PathIter<'r>),
    /// The path ends at this node, together with the node's label.
    Exact(usize),
    /// The path matches so many bytes of the label of this node and no
    /// more. The cursor stands behind what matched.
    SplitClosest(usize, usize, PathIter<'r>),
    /// The path runs past this node, and no child continues it. The cursor
    /// stands behind the label.
    CreateClosest(usize, PathIter<'r>),
}

impl<'r> Acquired<'r> {
    /// The place found, without the cursor.
    pub open spec fn place(self) -> Place {
        match self {
            Acquired::Root(_) => Place::Root,
            Acquired::Exact(i) => Place::Exact(i as int),
            Acquired::SplitClosest(i, common, _) => Place::Split(i as int, common as int),
            Acquired::CreateClosest(i, _) => Place::Create(i as int),
        }
    }

    /// The segments still to be stored below the place found.
    pub open spec fn segments(self) -> Seq<Seq<u8>> {
        match self {
            Acquired::Root(p) => p.segments(),
            Acquired::Exact(_) => Seq::empty(),
            Acquired::SplitClosest(_, _, p) => p.segments(),
            Acquired::CreateClosest(_, p) => p.segments(),
        }
    }
}

impl<'b, T> Node<'b, T> {
    /// The node as plain values.
    pub closed spec fn view(&self) -> NodeView<T> {
        NodeView {
            prefix: arena_bytes(self.prefix),
            priority: self.priority,
            children: arena_indices(self.children),
            value: self.value,
        }
    }

    /// A node without label, children or value.
    pub fn empty(arena: &'b bumpalo::Bump) -> (n: Self)
        ensures
            n@ == (NodeView::<T> {
                prefix: Seq::empty(),
                priority: 0,
                children: Seq::empty(),
                value: None,
            }),
    {
        Self { prefix: empty_in(arena), priority: 0, children: indices_in(arena), value: None }
    }

    /// The label of the edge that leads to this node.
    pub fn prefix(&self) -> (p: &[u8])
        ensures
            p@ == self@.prefix,
    {
        bytes_of(&self.prefix)
    }

    /// The children, as indices into the trie.
    pub fn children(&self) -> (c: &[usize])
        ensures
            c@ == self@.children,
    {
        indices_of(&self.children)
    }

    /// How often lookups have visited this node, counted from what it was
    /// made with.
    pub fn priority(&self) -> (p: u32)
        ensures
            p == self@.priority,
    {
        self.priority
    }

    /// The value stored at this node.
    pub fn value(&self) -> (v: Option<&T>)
        ensures
            v == match self@.value {
                Some(t) => Some(&t),
                None => None,
            },
    {
        self.value.as_ref()
    }
}

/// The trie: its nodes, the root first, and the arena that holds their
/// labels.
pub struct Tree<'b, T> {
    nodes: Vec<Node<'b, T>>,
    arena: &'b bumpalo::Bump,
}

impl<T> Tree<'static, T> {
    /// An empty trie over an arena of its own that is never freed.
    pub fn new_static() -> (t: Self)
        ensures
            t.wf(),
            t@ == seq![
                NodeView::<T> {
                    prefix: Seq::empty(),
                    priority: 0,
                    children: Seq::empty(),
                    value: None,
                },
            ],
    {
        Tree::new(leaked_arena())
    }
}

impl<'b, T> Tree<'b, T> {
    /// The nodes of the trie, the root first.
    pub closed spec fn view(&self) -> Seq<NodeView<T>> {
        Seq::new(self.nodes@.len(), |i: int| self.nodes@[i]@)
    }

    /// Children are nodes of the trie, and no node is its own descendant.
    pub open spec fn wf(&self) -> bool {
        wf_nodes(self@) && acyclic(self@)
    }

    /// An empty trie whose labels will live in `bump`.
    pub fn new(bump: &'b bumpalo::Bump) -> (t: Self)
        ensures
            t.wf(),
            t@ == seq![
                NodeView::<T> {
                    prefix: Seq::empty(),
                    priority: 0,
                    children: Seq::empty(),
                    value: None,
                },
            ],
    {
        let mut nodes = Vec::new();
        nodes.push(Node::empty(bump));
        let t = Self { nodes, arena: bump };
        proof {
            assert(ranked(t@, seq![0int]));
            assert(t@ =~= seq![
                NodeView::<T> {
                    prefix: Seq::empty(),
                    priority: 0,
                    children: Seq::empty(),
                    value: None,
                },
            ]);
        }
        t
    }

    /// Number of nodes.
    pub fn len(&self) -> (n: usize)
        ensures
            n == self@.len(),
    {
        self.nodes.len()
    }

    /// The node with the index `id`, if there is one.
    pub fn node(&self, id: usize) -> (n: Option<&Node<'b, T>>)
        ensures
            match n {
                Some(node) => id < self@.len() && node@ == self@[id as int],
                None => id >= self@.len(),
            },
    {
        if id < self.nodes.len() {
            Some(&self.nodes[id])
        } else {
            None
        }
    }

    /// The value stored at the node `id`, if there is such a node and it
    /// holds one.
    pub fn value(&self, id: usize) -> (v: Option<&T>)
        ensures
            v == if id < self@.len() {
                match self@[id as int].value {
                    Some(t) => Some(&t),
                    None => None,
                }
            } else {
                None
            },
    {
        if id < self.nodes.len() {
            self.nodes[id].value.as_ref()
        } else {
            None
        }
    }

    /// The first child of `cur` that continues the path at `route`.
    fn find_child(&self, cur: usize, route: &PathIter) -> (r: Option<usize>)
        requires
            self.wf(),
            cur < self@.len(),
        ensures
            match r {
                Some(c) => pick_child(self@, self@[cur as int].children, route.rest(), 0) == Some(
                    c as int,
                ) && c < self@.len(),
                None => pick_child(self@, self@[cur as int].children, route.rest(), 0) is None,
            },
    {
        let kids = indices_of(&self.nodes[cur].children);
        let n = kids.len();
        let mut k: usize = 0;
        while k < n
            invariant
                self.wf(),
                cur < self@.len(),
                kids@ == self@[cur as int].children,
                n == kids@.len(),
                k <= n,
                pick_child(self@, self@[cur as int].children, route.rest(), 0) == pick_child(
                    self@,
                    self@[cur as int].children,
                    route.rest(),
                    k as int,
                ),
            decreases n - k,
        {
            let c = kids[k];
            assert(c == self@[cur as int].children[k as int]);
            let label = bytes_of(&self.nodes[c].prefix);
            if route.next_is_opt(label.first()) {
                return Some(c);
            }
            k = k + 1;
        }
        None
    }

    /// Adds a node labelled `seg` as the last child of `parent`, and returns
    /// its index.
    fn grow(&mut self, parent: usize, seg: &[u8], priority: u32) -> (n: usize)
        requires
            old(self).wf(),
            parent < old(self)@.len(),
        ensures
            final(self).wf(),
            final(self)@ == grown(old(self)@, parent as int, seg@, priority),
            n == old(self)@.len(),
    {
        let n = self.nodes.len();
        let label = bytes_in(seg, self.arena);
        let none = indices_in(self.arena);
        self.nodes.push(Node { prefix: label, priority, children: none, value: None });
        index_push(&mut self.nodes[parent].children, n);
        proof {
            let g = grown(old(self)@, parent as int, seg@, priority);
            assert(self@.len() == g.len());
            assert forall|i: int| 0 <= i < g.len() implies self@[i] == g[i] by {
                if i == parent {
                    assert(self@[i].children =~= g[i].children);
                } else if i < n {
                    assert(self.nodes@[i] == old(self).nodes@[i]);
                }
            }
            assert(self@ =~= g);
            assert forall|i: int, j: int|
                0 <= i < g.len() && 0 <= j < g[i].children.len() implies (
            #[trigger] g[i].children[j]) < g.len() by {
                if i == parent {
                    if j < old(self)@[i].children.len() {
                        assert(g[i].children[j] == old(self)@[i].children[j]);
                    }
                } else if i < n {
                    assert(g[i].children[j] == old(self)@[i].children[j]);
                }
            }
            lemma_acyclic_grown(old(self)@, parent as int, seg@, priority);
        }
        n
    }

    /// Builds a chain of new nodes below `parent`, one for each segment that
    /// `rest_path` still yields, and returns the last of them.
    fn create_child(&mut self, parent: usize, rest_path: PathIter, priority: u32) -> (last: usize)
        requires
            old(self).wf(),
            parent < old(self)@.len(),
        ensures
            final(self).wf(),
            final(self)@ == chain(old(self)@, parent as int, rest_path.segments(), priority).0,
            last == chain(old(self)@, parent as int, rest_path.segments(), priority).1,
            last < final(self)@.len(),
    {
        let mut it = rest_path;
        let mut current = parent;
        proof {
            use_type_invariant(&rest_path);
        }
        loop
            invariant
                self.wf(),
                it.wf(),
                current < self@.len(),
                chain(old(self)@, parent as int, rest_path.segments(), priority) == chain(
                    self@,
                    current as int,
                    it.segments(),
                    priority,
                ),
            decreases it.rest().len() + if it.done() { 0int } else { 1int },
        {
            let ghost before = it;
            let ghost nodes = self@;
            proof {
                lemma_next_segment(it.rest());
            }
            match it.next() {
                Some(segment) => {
                    proof {
                        assert(before.segments() == seq![segment@] + it.segments());
                        assert(before.segments().skip(1) == it.segments());
                    }
                    current = self.grow(current, segment, priority);
                },
                None => {
                    return current;
                },
            }
        }
    }

    /// Splits `node` after `common` bytes of its label, then builds the
    /// chain for what is left of the path below it. Returns the node at
    /// which the path now ends.
    fn split_node(&mut self, node: usize, common: usize, rest: PathIter) -> (last: usize)
        requires
            old(self).wf(),
            node < old(self)@.len(),
        ensures
            final(self).wf(),
            final(self)@ == chain(
                split_at(old(self)@, node as int, common as int),
                node as int,
                rest.segments(),
                1,
            ).0,
            last == chain(
                split_at(old(self)@, node as int, common as int),
                node as int,
                rest.segments(),
                1,
            ).1,
            last < final(self)@.len(),
    {
        let label = bytes_of(&self.nodes[node].prefix);
        if common < label.len() {
            let n = self.nodes.len();
            let tail = bytes_in(&label[common..label.len()], self.arena);
            let priority = self.nodes[node].priority;
            let mut children = indices_in(self.arena);
            core::mem::swap(&mut self.nodes[node].children, &mut children);
            let value = self.nodes[node].value.take();
            bytes_truncate(&mut self.nodes[node].prefix, common);
            self.nodes.push(Node { prefix: tail, priority, children, value });
            index_push(&mut self.nodes[node].children, n);
            proof {
                let s = split_at(old(self)@, node as int, common as int);
                assert(self@.len() == s.len());
                assert forall|i: int| 0 <= i < s.len() implies self@[i] == s[i] by {
                    if i == node {
                        assert(self@[i].children =~= s[i].children);
                    } else if i < n {
                        assert(self.nodes@[i] == old(self).nodes@[i]);
                    } else {
                        assert(self@[i].prefix =~= s[i].prefix);
                    }
                }
                assert(self@ =~= s);
                assert forall|i: int, j: int|
                    0 <= i < s.len() && 0 <= j < s[i].children.len() implies (
                #[trigger] s[i].children[j]) < s.len() by {
                    if i == node {
                    } else if i < n {
                        assert(s[i].children[j] == old(self)@[i].children[j]);
                    } else {
                        assert(s[i].children[j] == old(self)@[node as int].children[j]);
                    }
                }
                lemma_acyclic_split(old(self)@, node as int, common as int);
            }
        }
        self.create_child(node, rest, 1)
    }

    /// Stores `value` for the path that `acquire` looked up with the result
    /// `acq`, building the nodes that the path still needs. Returns the
    /// index of the node that now holds the value. A later store that
    /// splits that node moves the value to the node that is split off.
    pub fn store(&mut self, acq: Acquired, value: T) -> (id: usize)
        requires
            old(self).wf(),
            match acq {
                Acquired::Root(_) => true,
                Acquired::Exact(i) => i < old(self)@.len(),
                Acquired::SplitClosest(i, _, _) => i < old(self)@.len(),
                Acquired::CreateClosest(i, _) => i < old(self)@.len(),
            },
        ensures
            final(self).wf(),
            final(self)@ == placed(old(self)@, acq.place(), acq.segments(), value).0,
            id == placed(old(self)@, acq.place(), acq.segments(), value).1,
            id < final(self)@.len(),
            final(self)@[id as int].value == Some(value),
    {
        let id = match acq {
            Acquired::Exact(i) => i,
            Acquired::Root(rem_path) => {
                let mut rem = rem_path;
                let priority = self.nodes[0].priority;
                proof {
                    use_type_invariant(&rem_path);
                    lemma_next_segment(rem.rest());
                }
                match rem.next() {
                    Some(segment) => {
                        proof {
                            assert(rem_path.segments() == seq![segment@] + rem.segments());
                            assert(rem_path.segments().skip(1) == rem.segments());
                        }
                        self.nodes[0].prefix = bytes_in(segment, self.arena);
                        proof {
                            let w = with_prefix(old(self)@, 0, segment@);
                            assert forall|i: int| 0 <= i < w.len() implies self@[i] == w[i] by {
                                if i > 0 {
                                    assert(self.nodes@[i] == old(self).nodes@[i]);
                                }
                            }
                            assert(self@ =~= w);
                            assert forall|i: int, j: int|
                                0 <= i < w.len() && 0 <= j < w[i].children.len() implies (
                            #[trigger] w[i].children[j]) < w.len() by {
                                assert(w[i].children[j] == old(self)@[i].children[j]);
                            }
                            lemma_acyclic_children(old(self)@, w);
                        }
                        self.create_child(0, rem, priority)
                    },
                    None => {
                        proof {
                            assert(rem_path.segments().len() == 0);
                        }
                        0
                    },
                }
            },
            Acquired::SplitClosest(i, common, rem_path) => self.split_node(i, common, rem_path),
            Acquired::CreateClosest(i, rem_path) => self.create_child(i, rem_path, 1),
        };
        let ghost mid = self@;
        self.nodes[id].value = Some(value);
        proof {
            let w = with_value(mid, id as int, value);
            assert forall|i: int| 0 <= i < w.len() implies self@[i] == w[i] by {
                if i != id {
                    assert(self.nodes@[i]@ == mid[i]);
                }
            }
            assert(self@ =~= w);
            assert forall|i: int, j: int|
                0 <= i < w.len() && 0 <= j < w[i].children.len() implies (
            #[trigger] w[i].children[j]) < w.len() by {
                assert(w[i].children[j] == mid[i].children[j]);
            }
            lemma_acyclic_children(mid, w);
        }
        id
    }

    /// The value stored for exactly this `path`. Where the trie holds none,
    /// `f` makes it from the cursor as the lookup left it, and the value is
    /// stored for the path: also for a path that ends within the label of
    /// a node, which is split for it. A failure of `f` is handed on, and
    /// nothing is stored. `f` is not called for a path whose value the trie
    /// holds.
    pub fn get_or_try_create<'r, F, E>(&mut self, path: PathIter<'r>, f: F) -> (r: Result<&T, E>)
        where F: FnOnce(PathIter<'r>) -> Result<T, E>
        requires
            old(self).wf(),
            stored(old(self)@, path.rest(), path.done()) is None ==> forall|p: PathIter<'r>|
                path.advanced(p, locate(old(self)@, path.rest(), path.done()).consumed)
                    ==> call_requires(f, (p,)),
        ensures
            final(self).wf(),
            ({
                let w = locate(old(self)@, path.rest(), path.done());
                let seen = visited(old(self)@, w.trail);
                match stored(old(self)@, path.rest(), path.done()) {
                    Some(v) => r matches Ok(got) && *got == v && final(self)@ == seen,
                    None => exists|p: PathIter<'r>, out: Result<T, E>|
                        {
                            &&& path.advanced(p, w.consumed)
                            &&& #[trigger] call_ensures(f, (p,), out)
                            &&& match out {
                                Ok(v) => r matches Ok(got) && *got == v && final(self)@ == placed(
                                    seen,
                                    w.place,
                                    p.segments(),
                                    v,
                                ).0,
                                Err(e) => r matches Err(x) && x == e && final(self)@ == seen,
                            }
                        },
                }
            }),
    {
        let mut cursor = path;
        let ghost w = locate(old(self)@, path.rest(), path.done());
        let acq = self.acquire(&mut cursor);
        proof {
            lemma_visited_shape(old(self)@, w.trail);
        }
        match acq {
            Acquired::Exact(i) => {
                assert(self@[i as int].value == old(self)@[i as int].value);
                if self.nodes[i].value.is_some() {
                    return Ok(self.nodes[i].value.as_ref().unwrap());
                }
            },
            _ => {},
        }
        let ghost seen = self@;
        assert(stored(old(self)@, path.rest(), path.done()) is None);
        let out = f(cursor);
        match out {
            Ok(v) => {
                let id = self.store(acq, v);
                proof {
                    assert(acq.place() is Exact || acq.segments() == cursor.segments());
                }
                Ok(self.nodes[id].value.as_ref().unwrap())
            },
            Err(e) => Err(e),
        }
    }

    /// Looks the path up and leaves `route` where the lookup ends. Every
    /// node on the way has its visit counter bumped.
    pub fn acquire<'r>(&mut self, route: &mut PathIter<'r>) -> (r: Acquired<'r>)
        requires
            old(self).wf(),
        ensures
            final(self).wf(),
            final(route).wf(),
            ({
                let w = locate(old(self)@, old(route).rest(), old(route).done());
                &&& final(self)@ == visited(old(self)@, w.trail)
                &&& old(route).advanced(*final(route), w.consumed)
                &&& r.place() == w.place
                &&& match r {
                    Acquired::Root(p) => p == *final(route),
                    Acquired::Exact(i) => i < old(self)@.len(),
                    Acquired::SplitClosest(i, common, p) => p == *final(route) && i < old(
                        self,
                    )@.len() && common < old(self)@[i as int].prefix.len(),
                    Acquired::CreateClosest(i, p) => p == *final(route) && i < old(self)@.len(),
                }
            }),
    {
        proof {
            use_type_invariant(&*route);
            assert(route.rest().skip(0) == route.rest());
        }
        if bytes_of(&self.nodes[0].prefix).len() == 0 && indices_of(&self.nodes[0].children).len()
            == 0 {
            return Acquired::Root(*route);
        }
        let ghost nodes0 = self@;
        let ghost rest0 = route.rest();
        let ghost done = route.done();
        let ghost pos0 = route.consumed();
        let ghost mut trail: Seq<int> = Seq::empty();
        let mut cur: usize = 0;
        loop
            invariant
                self.wf(),
                route.wf(),
                wf_nodes(nodes0),
                acyclic(nodes0),
                nodes0 == old(self)@,
                rest0 == old(route).rest(),
                done == old(route).done(),
                pos0 == old(route).consumed(),
                route.source() == old(route).source(),
                route.done() == done,
                pos0 <= route.consumed(),
                0 <= pos0 <= route.source().len(),
                rest0 == route.source().skip(pos0),
                locate(nodes0, rest0, done) == walk(nodes0, 0, rest0, done),
                cur < nodes0.len(),
                self@ == visited(nodes0, trail),
                ({
                    let w = walk(nodes0, cur as int, route.rest(), done);
                    let all = walk(nodes0, 0, rest0, done);
                    &&& all.place == w.place
                    &&& all.consumed == route.consumed() - pos0 + w.consumed
                    &&& all.trail == trail + w.trail
                }),
            decreases 2 * route.rest().len() + (if nodes0[cur as int].prefix.len() == 0 {
                1int
            } else {
                0int
            }),
        {
            let ghost before = *route;
            let ghost rest = route.rest();
            proof {
                lemma_visited_shape(nodes0, trail);
                assert(trail.push(cur as int).drop_last() == trail);
            }
            let p = self.nodes[cur].priority;
            self.nodes[cur].priority = if p < u32::MAX { p + 1 } else { p };
            proof {
                trail = trail.push(cur as int);
                assert(self@ =~= visited(nodes0, trail));
                lemma_visited_shape(nodes0, trail);
                lemma_acyclic_children(nodes0, self@);
                lemma_match_run(rest, nodes0[cur as int].prefix);
            }
            let label = bytes_of(&self.nodes[cur].prefix);
            let plen = label.len();
            let seen = route.move_match(label).len();
            proof {
                assert(route.consumed() - before.consumed() == passed(
                    rest,
                    nodes0[cur as int].prefix,
                    done,
                ));
                assert(seen == matched(rest, nodes0[cur as int].prefix, done));
                assert(rest0.skip(route.consumed() - pos0) == route.rest());
                assert(rest.skip(passed(rest, nodes0[cur as int].prefix, done)) == route.rest());
            }
            if seen < plen {
                proof {
                    assert(trail == trail.drop_last() + seq![cur as int]);
                }
                return Acquired::SplitClosest(cur, seen, *route);
            }
            if route.peek_complete() {
                proof {
                    assert(trail == trail.drop_last() + seq![cur as int]);
                }
                return Acquired::Exact(cur);
            }
            match self.find_child(cur, route) {
                Some(c) => {
                    proof {
                        lemma_pick_child(self@, self@[cur as int].children, route.rest(), 0);
                        lemma_pick_child_shape(
                            self@,
                            nodes0,
                            nodes0[cur as int].children,
                            route.rest(),
                            0,
                        );
                        let w = walk(nodes0, cur as int, rest, done);
                        let wc = walk(nodes0, c as int, route.rest(), done);
                        assert(w.trail == seq![cur as int] + wc.trail);
                        assert(trail.drop_last() + (seq![cur as int] + wc.trail) == trail
                            + wc.trail);
                    }
                    cur = c;
                },
                None => {
                    proof {
                        lemma_pick_child_shape(
                            self@,
                            nodes0,
                            nodes0[cur as int].children,
                            route.rest(),
                            0,
                        );
                        assert(trail == trail.drop_last() + seq![cur as int]);
                    }
                    return Acquired::CreateClosest(cur, *route);
                },
            }
        }
    }
}

/// A child that `pick_child` picks continues the path.
pub proof fn lemma_pick_child<T>(
    nodes: Seq<NodeView<T>>,
    children: Seq<usize>,
    rest: Seq<u8>,
    from: int,
)
    ensures
        match pick_child(nodes, children, rest, from) {
            Some(c) => child_matches(nodes, c, rest),
            None => true,
        },
    decreases children.len() - from,
{
    if from < 0 || from >= children.len() {
    } else if child_matches(nodes, children[from] as int, rest) {
    } else {
        lemma_pick_child(nodes, children, rest, from + 1);
    }
}

/// Which child is picked does not depend on visit counters.
pub proof fn lemma_pick_child_shape<T>(
    a: Seq<NodeView<T>>,
    b: Seq<NodeView<T>>,
    children: Seq<usize>,
    rest: Seq<u8>,
    from: int,
)
    requires
        same_shape(a, b),
    ensures
        pick_child(a, children, rest, from) == pick_child(b, children, rest, from),
    decreases children.len() - from,
{
    if from < 0 || from >= children.len() {
    } else if child_matches(a, children[from] as int, rest) {
    } else {
        lemma_pick_child_shape(a, b, children, rest, from + 1);
    }
}

} // verus!
