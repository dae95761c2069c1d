//! The topic trie: nodes keyed by literal segment, subscriptions attached
//! at the node reached by consuming all of their pattern's segments, and
//! the wildcard walk that collects the subscribers a published topic
//! reaches.

use vstd::prelude::*;
use vstd::seq_lib::*;

use crate::topic::{seg_hash, seg_plus, seg_views, seg_is_char, split_segments, str_eq};

verus! {

/// A stored subscription: an opaque subscriber handle together with the
/// verbatim topic pattern it was registered under.
pub struct Subscription {
    pub id: u64,
    pub topic: String,
}

/// One edge of the trie: a literal segment key and the child it leads to.
pub struct Child {
    pub key: String,
    pub node: Node,
}

/// A trie node: children keyed by topic segment, in insertion order, plus
/// the subscriptions attached exactly at this node's depth.
pub struct Node {
    pub children: Vec<Child>,
    pub leaves: Vec<Subscription>,
}

/// The (handle, pattern string) pairs of the subscriptions attached
/// directly to `n`.
pub open spec fn leaf_pairs(n: Node) -> Seq<(u64, Seq<char>)> {
    n.leaves@.map_values(|s: Subscription| (s.id, s.topic@))
}

/// The subscriber handles of the subscriptions attached directly to `n`,
/// in stored order.
pub open spec fn leaf_ids(n: Node) -> Seq<u64> {
    n.leaves@.map_values(|s: Subscription| s.id)
}

/// The subscriptions stored in the subtree rooted at `n`, flattened in
/// pre-order: this node's leaves first, then each child subtree in order.
pub open spec fn subs_of(n: Node) -> Seq<(u64, Seq<char>)>
    decreases n, 0int,
{
    leaf_pairs(n) + subs_of_children(n.children@)
}

/// The subscriptions stored in the subtrees of a run of children.
pub open spec fn subs_of_children(cs: Seq<Child>) -> Seq<(u64, Seq<char>)>
    decreases cs, 1int,
{
    if cs.len() == 0 {
        Seq::empty()
    } else {
        subs_of(cs[0].node) + subs_of_children(cs.subrange(1, cs.len() as int))
    }
}

/// The first child of `cs` whose key is `key`, if any.
pub open spec fn find_child_in(cs: Seq<Child>, key: Seq<char>) -> Option<Node>
    decreases cs.len(),
{
    if cs.len() == 0 {
        None
    } else if cs[0].key@ == key {
        Some(cs[0].node)
    } else {
        find_child_in(cs.subrange(1, cs.len() as int), key)
    }
}

/// The child of `n` reached over the edge labelled `key`, if any.
pub open spec fn find_child(n: Node, key: Seq<char>) -> Option<Node> {
    find_child_in(n.children@, key)
}

/// Well-formedness of the subtree rooted at `n`, which sits at `path`
/// below the trie root: every subscription is stored at the node reached
/// by consuming exactly its pattern's segments, and sibling keys are
/// distinct.
pub open spec fn wf_node(n: Node, path: Seq<Seq<char>>) -> bool
    decreases n, 0int,
{
    &&& forall|i: int|
        0 <= i < n.leaves@.len() ==> split_segments(#[trigger] n.leaves@[i].topic@) == path
    &&& forall|i: int, j: int|
        0 <= i < j < n.children@.len() ==> (#[trigger] n.children@[i].key@) != (
        #[trigger] n.children@[j].key@)
    &&& wf_children(n.children@, path)
}

/// Well-formedness of a run of children of a node at `path`.
pub open spec fn wf_children(cs: Seq<Child>, path: Seq<Seq<char>>) -> bool
    decreases cs, 1int,
{
    cs.len() == 0 || (wf_node(cs[0].node, path.push(cs[0].key@)) && wf_children(
        cs.subrange(1, cs.len() as int),
        path,
    ))
}

/// The subscriber handles a publish to `top` reaches below `n`, in
/// delivery order.  At each level the walk considers up to three child
/// edges in order: the literal current segment, then `#`, then `+`.
pub open spec fn walk(n: Node, top: Seq<Seq<char>>) -> Seq<u64>
    decreases top.len(), 1int,
{
    if top.len() == 0 {
        Seq::empty()
    } else {
        let p = top[0];
        step(n, top, p) + (if p != seg_hash() {
            step(n, top, seg_hash())
        } else {
            Seq::empty()
        }) + (if p != seg_plus() {
            step(n, top, seg_plus())
        } else {
            Seq::empty()
        })
    }
}

/// The handles collected over the single child edge of `n` labelled
/// `key`, for a publish to `top`.  Over a `#` edge the child's own
/// subscribers are dispatched and the walk stops.  Over a literal or `+`
/// edge, the child's subscribers are dispatched when no segments remain,
/// together with the subscribers of the child's own `#` child, so that a
/// pattern `a/#` also matches the bare topic `a`; otherwise the walk
/// continues into the child with the remaining segments.
pub open spec fn step(n: Node, top: Seq<Seq<char>>, key: Seq<char>) -> Seq<u64>
    decreases top.len(), 0int,
{
    match find_child(n, key) {
        None => Seq::empty(),
        Some(c) => {
            if top.len() == 0 {
                Seq::empty()
            } else if key == seg_hash() {
                leaf_ids(c)
            } else if top.len() == 1 {
                leaf_ids(c) + (match find_child(c, seg_hash()) {
                    Some(g) => leaf_ids(g),
                    None => Seq::empty(),
                })
            } else {
                walk(c, top.subrange(1, top.len() as int))
            }
        },
    }
}

impl Node {
    /// An empty node: no children, no subscriptions.
    pub fn new() -> (n: Node)
        ensures
            n.children@.len() == 0,
            n.leaves@.len() == 0,
            subs_of(n) == Seq::<(u64, Seq<char>)>::empty(),
            forall|path: Seq<Seq<char>>| #[trigger] wf_node(n, path),
    {
        let n = Node { children: Vec::new(), leaves: Vec::new() };
        proof {
            assert(leaf_pairs(n) =~= Seq::<(u64, Seq<char>)>::empty());
            assert(subs_of(n) =~= Seq::<(u64, Seq<char>)>::empty());
        }
        n
    }
}

pub proof fn lemma_find_child_at(cs: Seq<Child>, key: Seq<char>, j: int)
    requires
        0 <= j < cs.len(),
        cs[j].key@ == key,
        forall|k: int| 0 <= k < j ==> cs[k].key@ != key,
    ensures
        find_child_in(cs, key) == Some(cs[j].node),
    decreases j,
{
    if j > 0 {
        lemma_find_child_at(cs.subrange(1, cs.len() as int), key, j - 1);
    }
}

pub proof fn lemma_find_child_none(cs: Seq<Child>, key: Seq<char>)
    requires
        forall|k: int| 0 <= k < cs.len() ==> cs[k].key@ != key,
    ensures
        find_child_in(cs, key) is None,
    decreases cs.len(),
{
    if cs.len() > 0 {
        lemma_find_child_none(cs.subrange(1, cs.len() as int), key);
    }
}

/// The index of the first child of `n` keyed by the string `key`, if any.
fn find_key_index(n: &Node, key: &str) -> (r: Option<usize>)
    ensures
        match r {
            Some(j) => {
                &&& j < n.children@.len()
                &&& n.children@[j as int].key@ == key@
                &&& forall|k: int| 0 <= k < j ==> n.children@[k].key@ != key@
                &&& find_child(*n, key@) == Some(n.children@[j as int].node)
            },
            None => {
                &&& find_child(*n, key@) is None
                &&& forall|k: int| 0 <= k < n.children@.len() ==> n.children@[k].key@ != key@
            },
        },
{
    let mut j: usize = 0;
    while j < n.children.len()
        invariant
            j <= n.children@.len(),
            forall|k: int| 0 <= k < j ==> n.children@[k].key@ != key@,
        decreases n.children@.len() - j,
    {
        if str_eq(n.children[j].key.as_str(), key) {
            proof {
                lemma_find_child_at(n.children@, key@, j as int);
            }
            return Some(j);
        }
        j += 1;
    }
    proof {
        lemma_find_child_none(n.children@, key@);
    }
    None
}

/// The index of the first child of `n` whose key is the single character
/// `c`, if any.
fn find_char_index(n: &Node, c: char) -> (r: Option<usize>)
    ensures
        match r {
            Some(j) => {
                &&& j < n.children@.len()
                &&& n.children@[j as int].key@ == seq![c]
                &&& find_child(*n, seq![c]) == Some(n.children@[j as int].node)
            },
            None => find_child(*n, seq![c]) is None,
        },
{
    let mut j: usize = 0;
    while j < n.children.len()
        invariant
            j <= n.children@.len(),
            forall|k: int| 0 <= k < j ==> n.children@[k].key@ != seq![c],
        decreases n.children@.len() - j,
    {
        if seg_is_char(n.children[j].key.as_str(), c) {
            proof {
                lemma_find_child_at(n.children@, seq![c], j as int);
            }
            return Some(j);
        }
        j += 1;
    }
    proof {
        lemma_find_child_none(n.children@, seq![c]);
    }
    None
}

/// Appends the handles of the subscriptions attached directly to `c`.
fn push_leaf_ids(c: &Node, out: &mut Vec<u64>)
    ensures
        final(out)@ == old(out)@ + leaf_ids(*c),
{
    let mut k: usize = 0;
    while k < c.leaves.len()
        invariant
            k <= c.leaves@.len(),
            out@ == old(out)@ + leaf_ids(*c).subrange(0, k as int),
        decreases c.leaves@.len() - k,
    {
        out.push(c.leaves[k].id);
        proof {
            assert(leaf_ids(*c).subrange(0, k + 1) =~= leaf_ids(*c).subrange(0, k as int).push(
                leaf_ids(*c)[k as int],
            ));
            assert(out@ =~= old(out)@ + leaf_ids(*c).subrange(0, k + 1));
        }
        k += 1;
    }
    proof {
        assert(leaf_ids(*c).subrange(0, c.leaves@.len() as int) =~= leaf_ids(*c));
    }
}

/// Whether every node along the segment path `segs` below `n` exists.
pub open spec fn has_path(n: Node, segs: Seq<Seq<char>>) -> bool
    decreases segs.len(),
{
    segs.len() == 0 || (find_child(n, segs[0]) is Some && has_path(
        find_child(n, segs[0]).unwrap(),
        segs.subrange(1, segs.len() as int),
    ))
}

/// Splits the flattened subscriptions of a run of children around child `j`.
pub proof fn lemma_subs_children_split(cs: Seq<Child>, j: int)
    requires
        0 <= j < cs.len(),
    ensures
        subs_of_children(cs) == subs_of_children(cs.subrange(0, j)) + subs_of(cs[j].node)
            + subs_of_children(cs.subrange(j + 1, cs.len() as int)),
    decreases j,
{
    if j == 0 {
        assert(subs_of_children(cs.subrange(0, 0)) =~= Seq::<(u64, Seq<char>)>::empty());
        assert(cs.subrange(1, cs.len() as int) =~= cs.subrange(j + 1, cs.len() as int));
        assert(subs_of_children(cs) =~= subs_of_children(cs.subrange(0, 0)) + subs_of(cs[0].node)
            + subs_of_children(cs.subrange(1, cs.len() as int)));
    } else {
        let tail = cs.subrange(1, cs.len() as int);
        lemma_subs_children_split(tail, j - 1);
        assert(tail.subrange(0, j - 1) =~= cs.subrange(1, j));
        assert(tail.subrange(j, tail.len() as int) =~= cs.subrange(j + 1, cs.len() as int));
        assert(tail[j - 1] == cs[j]);
        assert(cs.subrange(0, j).subrange(1, j) =~= cs.subrange(1, j));
        assert(subs_of_children(cs.subrange(0, j)) =~= subs_of(cs[0].node) + subs_of_children(
            cs.subrange(1, j),
        ));
        assert(subs_of_children(cs) =~= subs_of_children(cs.subrange(0, j)) + subs_of(cs[j].node)
            + subs_of_children(cs.subrange(j + 1, cs.len() as int)));
    }
}

/// Replacing child `j` by one with the same key and the same flattened
/// subscriptions leaves the flattened subscriptions of the run unchanged,
/// and an updated subtree multiset updates the run's multiset alike.
pub proof fn lemma_subs_children_update(cs: Seq<Child>, j: int, c: Child)
    requires
        0 <= j < cs.len(),
    ensures
        subs_of_children(cs.update(j, c)) == subs_of_children(cs.subrange(0, j)) + subs_of(c.node)
            + subs_of_children(cs.subrange(j + 1, cs.len() as int)),
{
    let cs2 = cs.update(j, c);
    lemma_subs_children_split(cs2, j);
    assert(cs2.subrange(0, j) =~= cs.subrange(0, j));
    assert(cs2.subrange(j + 1, cs.len() as int) =~= cs.subrange(j + 1, cs.len() as int));
}

/// Appending a child appends its flattened subscriptions.
pub proof fn lemma_subs_children_push(cs: Seq<Child>, c: Child)
    ensures
        subs_of_children(cs.push(c)) == subs_of_children(cs) + subs_of(c.node),
{
    let cs2 = cs.push(c);
    lemma_subs_children_split(cs2, cs.len() as int);
    assert(cs2.subrange(0, cs.len() as int) =~= cs);
    assert(cs2.subrange(cs.len() as int + 1, cs2.len() as int) =~= Seq::<Child>::empty());
    assert(subs_of_children(cs) + subs_of(c.node) + Seq::<(u64, Seq<char>)>::empty() =~=
        subs_of_children(cs) + subs_of(c.node));
}

/// Every child of a well-formed run is itself well-formed one level down.
pub proof fn lemma_wf_children_index(cs: Seq<Child>, path: Seq<Seq<char>>, j: int)
    requires
        wf_children(cs, path),
        0 <= j < cs.len(),
    ensures
        wf_node(cs[j].node, path.push(cs[j].key@)),
    decreases j,
{
    if j > 0 {
        lemma_wf_children_index(cs.subrange(1, cs.len() as int), path, j - 1);
    }
}

/// A run of children stays well-formed when one child's subtree is
/// replaced by a well-formed subtree under the same key.
pub proof fn lemma_wf_children_update(cs: Seq<Child>, path: Seq<Seq<char>>, j: int, c: Child)
    requires
        wf_children(cs, path),
        0 <= j < cs.len(),
        c.key@ == cs[j].key@,
        wf_node(c.node, path.push(c.key@)),
    ensures
        wf_children(cs.update(j, c), path),
    decreases j,
{
    let cs2 = cs.update(j, c);
    if j == 0 {
        assert(cs2.subrange(1, cs2.len() as int) =~= cs.subrange(1, cs.len() as int));
    } else {
        lemma_wf_children_update(cs.subrange(1, cs.len() as int), path, j - 1, c);
        assert(cs2.subrange(1, cs2.len() as int) =~= cs.subrange(1, cs.len() as int).update(
            j - 1,
            c,
        ));
        assert(cs2[0] == cs[0]);
    }
}

/// A run of children stays well-formed when a well-formed child is
/// appended.
pub proof fn lemma_wf_children_push(cs: Seq<Child>, path: Seq<Seq<char>>, c: Child)
    requires
        wf_children(cs, path),
        wf_node(c.node, path.push(c.key@)),
    ensures
        wf_children(cs.push(c), path),
    decreases cs.len(),
{
    let cs2 = cs.push(c);
    if cs.len() == 0 {
        assert(cs2[0] == c);
        assert(cs2.subrange(1, 1) =~= Seq::<Child>::empty());
        assert(wf_children(Seq::<Child>::empty(), path));
        assert(wf_children(cs2, path));
    } else {
        lemma_wf_children_push(cs.subrange(1, cs.len() as int), path, c);
        assert(cs2.subrange(1, cs2.len() as int) =~= cs.subrange(1, cs.len() as int).push(c));
        assert(cs2[0] == cs[0]);
    }
}

/// Creates any missing nodes along `parts[i..]` below `node`, idempotently;
/// no subscription is added or removed.
pub fn ensure_path(node: &mut Node, parts: &Vec<String>, i: usize, path: Ghost<Seq<Seq<char>>>)
    requires
        wf_node(*old(node), path@),
        i <= parts@.len(),
    ensures
        wf_node(*final(node), path@),
        subs_of(*final(node)) == subs_of(*old(node)),
        has_path(*final(node), seg_views(parts@).subrange(i as int, parts@.len() as int)),
    decreases parts@.len() - i,
{
    let ghost segs = seg_views(parts@).subrange(i as int, parts@.len() as int);
    if i == parts.len() {
        return ;
    }
    let key = &parts[i];
    let j: usize = match find_key_index(node, key.as_str()) {
        Some(j) => j,
        None => {
            let c = Child { key: key.clone(), node: Node::new() };
            proof {
                lemma_wf_children_push(old(node).children@, path@, c);
                lemma_subs_children_push(old(node).children@, c);
                assert(subs_of_children(old(node).children@) + subs_of(c.node) =~=
                    subs_of_children(old(node).children@));
            }
            let j = node.children.len();
            node.children.push(c);
            j
        },
    };
    let ghost mid = *node;
    proof {
        assert(subs_of(mid) == subs_of(*old(node)));
        assert(wf_node(mid, path@));
        assert(mid.children@[j as int].key@ == key@);
        assert(forall|k: int| 0 <= k < j ==> mid.children@[k].key@ != key@);
        lemma_wf_children_index(mid.children@, path@, j as int);
    }
    let sub = &mut node.children[j].node;
    ensure_path(sub, parts, i + 1, Ghost(path@.push(parts@[i as int]@)));
    proof {
        let c2 = Child { key: mid.children@[j as int].key, node: node.children@[j as int].node };
        assert(node.children@ =~= mid.children@.update(j as int, c2));
        lemma_wf_children_update(mid.children@, path@, j as int, c2);
        lemma_subs_children_update(mid.children@, j as int, c2);
        lemma_subs_children_split(mid.children@, j as int);
        assert(subs_of(*node) == subs_of(mid));
        assert(forall|a: int, b: int|
            0 <= a < b < node.children@.len() ==> (#[trigger] node.children@[a].key@) != (
            #[trigger] node.children@[b].key@));
        lemma_find_child_at(node.children@, key@, j as int);
        assert(segs[0] == key@);
        assert(segs.subrange(1, segs.len() as int) =~= seg_views(parts@).subrange(
            i + 1,
            parts@.len() as int,
        ));
        assert(has_path(*node, segs));
    }
}

/// Attaches a subscription for `id` under the pattern `topic`, whose
/// segments `parts[i..]` lead from `node` to an already-ensured terminal
/// node; the new subscription is appended at that node.
pub fn add_subscription(
    node: &mut Node,
    parts: &Vec<String>,
    i: usize,
    id: u64,
    topic: &str,
    path: Ghost<Seq<Seq<char>>>,
)
    requires
        wf_node(*old(node), path@),
        i <= parts@.len(),
        has_path(*old(node), seg_views(parts@).subrange(i as int, parts@.len() as int)),
        path@ + seg_views(parts@).subrange(i as int, parts@.len() as int) == split_segments(
            topic@,
        ),
    ensures
        wf_node(*final(node), path@),
        subs_of(*final(node)).to_multiset() == subs_of(*old(node)).to_multiset().insert(
            (id, topic@),
        ),
    decreases parts@.len() - i,
{
    broadcast use vstd::multiset::group_multiset_axioms;

    let ghost segs = seg_views(parts@).subrange(i as int, parts@.len() as int);
    if i == parts.len() {
        proof {
            assert(segs =~= Seq::<Seq<char>>::empty());
            assert(path@ + segs =~= path@);
        }
        let sub = Subscription { id, topic: topic.to_owned() };
        node.leaves.push(sub);
        proof {
            let pair = (id, topic@);
            let lp = leaf_pairs(*old(node));
            let ch = subs_of_children(old(node).children@);
            assert(leaf_pairs(*node) =~= lp.push(pair));
            lp.to_multiset_ensures();
            lemma_multiset_commutative(lp.push(pair), ch);
            lemma_multiset_commutative(lp, ch);
            assert(subs_of(*node).to_multiset() =~= subs_of(*old(node)).to_multiset().insert(
                pair,
            ));
        }
    } else {
        let key = &parts[i];
        match find_key_index(node, key.as_str()) {
            Some(j) => {
                proof {
                    lemma_wf_children_index(node.children@, path@, j as int);
                    assert(segs[0] == key@);
                    assert(segs.subrange(1, segs.len() as int) =~= seg_views(parts@).subrange(
                        i + 1,
                        parts@.len() as int,
                    ));
                    assert(path@.push(key@) + seg_views(parts@).subrange(
                        i + 1,
                        parts@.len() as int,
                    ) =~= path@ + segs);
                }
                let ghost mid = *node;
                let sub = &mut node.children[j].node;
                add_subscription(sub, parts, i + 1, id, topic, Ghost(path@.push(parts@[i as int]@)));
                proof {
                    let pair = (id, topic@);
                    let c2 = Child {
                        key: mid.children@[j as int].key,
                        node: node.children@[j as int].node,
                    };
                    assert(node.children@ =~= mid.children@.update(j as int, c2));
                    lemma_wf_children_update(mid.children@, path@, j as int, c2);
                    lemma_subs_children_update(mid.children@, j as int, c2);
                    lemma_subs_children_split(mid.children@, j as int);
                    assert(forall|a: int, b: int|
                        0 <= a < b < node.children@.len() ==> (#[trigger] node.children@[a].key@)
                            != (#[trigger] node.children@[b].key@));
                    let lp = leaf_pairs(mid);
                    let pre = subs_of_children(mid.children@.subrange(0, j as int));
                    let suf = subs_of_children(
                        mid.children@.subrange(j + 1, mid.children@.len() as int),
                    );
                    let co = subs_of(mid.children@[j as int].node);
                    let cn = subs_of(c2.node);
                    assert(leaf_pairs(*node) =~= lp);
                    lemma_multiset_commutative(lp, pre + cn + suf);
                    lemma_multiset_commutative(pre + cn, suf);
                    lemma_multiset_commutative(pre, cn);
                    lemma_multiset_commutative(lp, pre + co + suf);
                    lemma_multiset_commutative(pre + co, suf);
                    lemma_multiset_commutative(pre, co);
                    assert(subs_of(*node).to_multiset() =~= subs_of(mid).to_multiset().insert(
                        pair,
                    ));
                }
            },
            None => {
                proof {
                    assert(segs[0] == key@);
                    assert(false);
                }
            },
        }
    }
}

/// Whether a stored subscription survives an unsubscription by `id`: it is
/// removed only when its handle is `id` and, if `check` is set, its
/// verbatim pattern is listed in `topics`.
pub open spec fn keep_sub(pr: (u64, Seq<char>), id: u64, topics: Seq<Seq<char>>, check: bool) -> bool {
    !(pr.0 == id && (!check || topics.contains(pr.1)))
}

/// The subscriptions of `subs` that survive an unsubscription by `id`, in
/// unchanged order.
pub open spec fn remaining(
    subs: Seq<(u64, Seq<char>)>,
    id: u64,
    topics: Seq<Seq<char>>,
    check: bool,
) -> Seq<(u64, Seq<char>)> {
    subs.filter(|pr: (u64, Seq<char>)| keep_sub(pr, id, topics, check))
}

proof fn lemma_leaf_filter_map(
    l: Seq<Subscription>,
    id: u64,
    topics: Seq<Seq<char>>,
    check: bool,
)
    ensures
        l.filter(
            |s: Subscription| keep_sub((s.id, s.topic@), id, topics, check),
        ).map_values(|s: Subscription| (s.id, s.topic@)) == remaining(
            l.map_values(|s: Subscription| (s.id, s.topic@)),
            id,
            topics,
            check,
        ),
    decreases l.len(),
{
    reveal(Seq::filter);
    let f = |s: Subscription| (s.id, s.topic@);
    let lpred = |s: Subscription| keep_sub((s.id, s.topic@), id, topics, check);
    let ppred = |pr: (u64, Seq<char>)| keep_sub(pr, id, topics, check);
    if l.len() == 0 {
        assert(l.map_values(f) =~= Seq::<(u64, Seq<char>)>::empty());
        assert(l.filter(lpred).map_values(f) =~= Seq::<(u64, Seq<char>)>::empty());
    } else {
        let front = l.drop_last();
        let x = l.last();
        lemma_leaf_filter_map(front, id, topics, check);
        front.lemma_filter_push(x, lpred);
        front.map_values(f).lemma_filter_push(f(x), ppred);
        assert(front.push(x) =~= l);
        assert(front.map_values(f).push(f(x)) =~= l.map_values(f)) by {
            front.lemma_push_map_commute(f, x);
        }
        if lpred(x) {
            front.filter(lpred).lemma_push_map_commute(f, x);
        }
    }
}

proof fn lemma_subs_children_filtered(
    old_cs: Seq<Child>,
    new_cs: Seq<Child>,
    id: u64,
    topics: Seq<Seq<char>>,
    check: bool,
)
    requires
        old_cs.len() == new_cs.len(),
        forall|k: int|
            0 <= k < old_cs.len() ==> subs_of(#[trigger] new_cs[k].node) == remaining(
                subs_of(old_cs[k].node),
                id,
                topics,
                check,
            ),
    ensures
        subs_of_children(new_cs) == remaining(subs_of_children(old_cs), id, topics, check),
    decreases old_cs.len(),
{
    reveal(Seq::filter);
    let ppred = |pr: (u64, Seq<char>)| keep_sub(pr, id, topics, check);
    if old_cs.len() == 0 {
        assert(subs_of_children(new_cs) =~= Seq::<(u64, Seq<char>)>::empty());
        assert(remaining(subs_of_children(old_cs), id, topics, check) =~= Seq::<(
            u64,
            Seq<char>,
        )>::empty());
    } else {
        let ot = old_cs.subrange(1, old_cs.len() as int);
        let nt = new_cs.subrange(1, new_cs.len() as int);
        assert(forall|k: int|
            0 <= k < ot.len() ==> subs_of(#[trigger] nt[k].node) == remaining(
                subs_of(ot[k].node),
                id,
                topics,
                check,
            )) by {
            assert(forall|k: int| 0 <= k < ot.len() ==> nt[k] == new_cs[k + 1]);
            assert(forall|k: int| 0 <= k < ot.len() ==> ot[k] == old_cs[k + 1]);
        }
        lemma_subs_children_filtered(ot, nt, id, topics, check);
        Seq::filter_distributes_over_add(subs_of(old_cs[0].node), subs_of_children(ot), ppred);
    }
}

/// A run of children each of whose subtrees is well-formed one level down,
/// with its own key, forms a well-formed run.
pub proof fn lemma_wf_children_build(cs: Seq<Child>, path: Seq<Seq<char>>)
    requires
        forall|k: int|
            0 <= k < cs.len() ==> wf_node(
                (#[trigger] cs[k]).node,
                path.push(cs[k].key@),
            ),
    ensures
        wf_children(cs, path),
    decreases cs.len(),
{
    if cs.len() > 0 {
        let tail = cs.subrange(1, cs.len() as int);
        assert(forall|k: int| 0 <= k < tail.len() ==> tail[k] == cs[k + 1]);
        lemma_wf_children_build(tail, path);
    }
}

/// Whether a pattern string is listed among the owned topic strings.
fn topics_contain(topics: &Vec<String>, t: &String) -> (b: bool)
    ensures
        b == seg_views(topics@).contains(t@),
{
    let mut k: usize = 0;
    while k < topics.len()
        invariant
            k <= topics@.len(),
            forall|j: int| 0 <= j < k ==> seg_views(topics@)[j] != t@,
        decreases topics@.len() - k,
    {
        if str_eq(topics[k].as_str(), t.as_str()) {
            assert(seg_views(topics@)[k as int] == t@);
            return true;
        }
        k += 1;
    }
    false
}

/// Removes from the subtree rooted at `node` every subscription whose
/// handle is `id` and whose verbatim pattern, when `check` is set, is
/// listed in `topics`; with `check` unset every subscription of `id` goes.
/// Surviving subscriptions keep their relative order, and nodes are never
/// deleted, even once empty.
pub fn remove_subs(
    node: Node,
    id: u64,
    topics: &Vec<String>,
    check: bool,
    path: Ghost<Seq<Seq<char>>>,
) -> (r: Node)
    requires
        wf_node(node, path@),
    ensures
        wf_node(r, path@),
        subs_of(r) == remaining(subs_of(node), id, seg_views(topics@), check),
    decreases node,
{
    proof {
        reveal(Seq::filter);
    }
    let ghost tops = seg_views(topics@);
    let ghost lpred = |s: Subscription| keep_sub((s.id, s.topic@), id, tops, check);
    let Node { children, leaves } = node;
    let mut rest = leaves;
    let mut kept: Vec<Subscription> = Vec::new();
    let ghost orig_l = rest@;
    proof {
        assert(orig_l.subrange(0, 0).filter(lpred) =~= Seq::<Subscription>::empty());
    }
    while rest.len() > 0
        invariant
            rest@.len() <= orig_l.len(),
            rest@ == orig_l.subrange(orig_l.len() - rest@.len(), orig_l.len() as int),
            kept@ == orig_l.subrange(0, orig_l.len() - rest@.len()).filter(lpred),
            lpred == (|s: Subscription| keep_sub((s.id, s.topic@), id, tops, check)),
            check ==> tops == seg_views(topics@),
            forall|x: int|
                0 <= x < orig_l.len() ==> split_segments(#[trigger] orig_l[x].topic@) == path@,
            forall|x: int|
                0 <= x < kept@.len() ==> split_segments(#[trigger] kept@[x].topic@) == path@,
        decreases rest@.len(),
    {
        let ghost t = orig_l.len() - rest@.len();
        let s = rest.remove(0);
        proof {
            assert(s == orig_l[t]);
            assert(rest@ =~= orig_l.subrange(t + 1, orig_l.len() as int));
            assert(orig_l.subrange(0, t + 1) =~= orig_l.subrange(0, t).push(orig_l[t]));
            orig_l.subrange(0, t).lemma_filter_push(orig_l[t], lpred);
        }
        let is_same = s.id == id;
        let listed = if check {
            topics_contain(topics, &s.topic)
        } else {
            true
        };
        if !(is_same && listed) {
            kept.push(s);
        }
    }
    proof {
        assert(orig_l.subrange(0, orig_l.len() as int) =~= orig_l);
        assert(kept@ == orig_l.filter(lpred));
    }
    let mut cs = children;
    let mut new_cs: Vec<Child> = Vec::new();
    let ghost orig_cs = cs@;
    while cs.len() > 0
        invariant
            wf_node(node, path@),
            orig_cs == node.children@,
            cs@.len() <= orig_cs.len(),
            cs@ == orig_cs.subrange(orig_cs.len() - cs@.len(), orig_cs.len() as int),
            new_cs@.len() == orig_cs.len() - cs@.len(),
            tops == seg_views(topics@),
            forall|k: int|
                0 <= k < new_cs@.len() ==> (#[trigger] new_cs@[k]).key@ == orig_cs[k].key@,
            forall|k: int|
                0 <= k < new_cs@.len() ==> subs_of((#[trigger] new_cs@[k]).node) == remaining(
                    subs_of(orig_cs[k].node),
                    id,
                    tops,
                    check,
                ),
            forall|k: int|
                0 <= k < new_cs@.len() ==> wf_node(
                    (#[trigger] new_cs@[k]).node,
                    path@.push(new_cs@[k].key@),
                ),
        decreases cs@.len(),
    {
        let ghost k = orig_cs.len() - cs@.len();
        let c = cs.remove(0);
        proof {
            assert(c == orig_cs[k]);
            assert(cs@ =~= orig_cs.subrange(k + 1, orig_cs.len() as int));
            lemma_wf_children_index(node.children@, path@, k);
            assert(decreases_to!(node => node.children));
            assert(decreases_to!(node.children => node.children@));
            assert(decreases_to!(node.children@ => node.children@[k]));
            assert(decreases_to!(node.children@[k] => node.children@[k].node));
        }
        let sub = remove_subs(c.node, id, topics, check, Ghost(path@.push(c.key@)));
        new_cs.push(Child { key: c.key, node: sub });
    }
    let r = Node { children: new_cs, leaves: kept };
    proof {
        let ppred = |pr: (u64, Seq<char>)| keep_sub(pr, id, tops, check);
        lemma_leaf_filter_map(orig_l, id, tops, check);
        lemma_subs_children_filtered(orig_cs, r.children@, id, tops, check);
        Seq::filter_distributes_over_add(leaf_pairs(node), subs_of_children(orig_cs), ppred);
        assert(leaf_pairs(r) == remaining(leaf_pairs(node), id, tops, check));
        assert(subs_of(r) == remaining(subs_of(node), id, tops, check));
        assert(forall|a: int, b: int|
            0 <= a < b < r.children@.len() ==> (#[trigger] r.children@[a].key@) != (
            #[trigger] r.children@[b].key@));
        lemma_wf_children_build(r.children@, path@);
    }
    r
}

/// Performs one step of the walk over the already-found child `c` of `n`,
/// reached over the edge `key@`, appending the handles it dispatches.
fn step_exec(
    n: &Node,
    parts: &Vec<String>,
    i: usize,
    c: &Node,
    is_hash: bool,
    key: Ghost<Seq<char>>,
    out: &mut Vec<u64>,
)
    requires
        i < parts@.len(),
        find_child(*n, key@) == Some(*c),
        is_hash == (key@ == seg_hash()),
    ensures
        final(out)@ == old(out)@ + step(
            *n,
            seg_views(parts@).subrange(i as int, parts@.len() as int),
            key@,
        ),
    decreases parts@.len() - i, 0int,
{
    let ghost top = seg_views(parts@).subrange(i as int, parts@.len() as int);
    if is_hash {
        push_leaf_ids(c, out);
    } else if i == parts.len() - 1 {
        push_leaf_ids(c, out);
        match find_char_index(c, '#') {
            Some(g) => {
                proof {
                    assert(seq!['#'] =~= seg_hash());
                }
                push_leaf_ids(&c.children[g].node, out);
            },
            None => {
                proof {
                    assert(seq!['#'] =~= seg_hash());
                    assert(out@ =~= old(out)@ + step(*n, top, key@));
                }
            },
        }
    } else {
        proof {
            assert(top.subrange(1, top.len() as int) =~= seg_views(parts@).subrange(
                i + 1,
                parts@.len() as int,
            ));
        }
        collect_walk(c, parts, i + 1, out);
    }
}

/// Walks the trie below `n` for the published segments `parts[i..]`,
/// appending every dispatched subscriber handle in delivery order: at each
/// level the literal segment edge first, then `#`, then `+`.
pub fn collect_walk(n: &Node, parts: &Vec<String>, i: usize, out: &mut Vec<u64>)
    requires
        i <= parts@.len(),
    ensures
        final(out)@ == old(out)@ + walk(
            *n,
            seg_views(parts@).subrange(i as int, parts@.len() as int),
        ),
    decreases parts@.len() - i, 1int,
{
    let ghost top = seg_views(parts@).subrange(i as int, parts@.len() as int);
    if i == parts.len() {
        proof {
            assert(out@ =~= old(out)@ + walk(*n, top));
        }
        return ;
    }
    let p = &parts[i];
    let p_is_hash = seg_is_char(p.as_str(), '#');
    let p_is_plus = seg_is_char(p.as_str(), '+');
    proof {
        assert(top[0] == p@);
        assert(seq!['#'] =~= seg_hash());
        assert(seq!['+'] =~= seg_plus());
    }
    let ghost mark0 = out@;
    match find_key_index(n, p.as_str()) {
        Some(j) => {
            let c = &n.children[j].node;
            step_exec(n, parts, i, c, p_is_hash, Ghost(p@), out);
        },
        None => {
            proof {
                assert(out@ =~= mark0 + step(*n, top, p@));
            }
        },
    }
    let ghost mark1 = out@;
    proof {
        assert(mark1 == mark0 + step(*n, top, top[0]));
    }
    if !p_is_hash {
        match find_char_index(n, '#') {
            Some(j) => {
                let c = &n.children[j].node;
                step_exec(n, parts, i, c, true, Ghost(seg_hash()), out);
            },
            None => {
                proof {
                    assert(out@ =~= mark1 + step(*n, top, seg_hash()));
                }
            },
        }
    }
    let ghost mark2 = out@;
    if !p_is_plus {
        proof {
            assert(seg_plus()[0] == '+');
            assert(seg_plus() != seg_hash());
        }
        match find_char_index(n, '+') {
            Some(j) => {
                let c = &n.children[j].node;
                step_exec(n, parts, i, c, false, Ghost(seg_plus()), out);
            },
            None => {
                proof {
                    assert(out@ =~= mark2 + step(*n, top, seg_plus()));
                }
            },
        }
    }
    proof {
        let s1 = step(*n, top, top[0]);
        let s2 = if top[0] != seg_hash() {
            step(*n, top, seg_hash())
        } else {
            Seq::<u64>::empty()
        };
        let s3 = if top[0] != seg_plus() {
            step(*n, top, seg_plus())
        } else {
            Seq::<u64>::empty()
        };
        assert(mark2 =~= mark0 + s1 + s2);
        assert(out@ =~= mark0 + s1 + s2 + s3);
        assert(out@ =~= mark0 + (s1 + s2 + s3));
        assert(out@ =~= old(out)@ + walk(*n, top));
    }
}

/// Whether some subscription in `subs` belongs to the handle `x`.
pub open spec fn has_id(subs: Seq<(u64, Seq<char>)>, x: u64) -> bool {
    exists|i: int| 0 <= i < subs.len() && subs[i].0 == x
}

proof fn lemma_has_id_leaf(c: Node, x: u64)
    requires
        leaf_ids(c).contains(x),
    ensures
        has_id(subs_of(c), x),
{
    let i = choose|i: int| 0 <= i < leaf_ids(c).len() && leaf_ids(c)[i] == x;
    assert(subs_of(c)[i] == leaf_pairs(c)[i]);
    assert(subs_of(c)[i].0 == x);
}

proof fn lemma_has_id_found(cs: Seq<Child>, key: Seq<char>, x: u64)
    requires
        find_child_in(cs, key) is Some,
        has_id(subs_of(find_child_in(cs, key).unwrap()), x),
    ensures
        has_id(subs_of_children(cs), x),
    decreases cs.len(),
{
    let c = find_child_in(cs, key).unwrap();
    let head = subs_of(cs[0].node);
    let tail = cs.subrange(1, cs.len() as int);
    if cs[0].key@ == key {
        let i = choose|i: int| 0 <= i < subs_of(c).len() && subs_of(c)[i].0 == x;
        assert(subs_of_children(cs)[i] == head[i]);
        assert(subs_of_children(cs)[i].0 == x);
    } else {
        lemma_has_id_found(tail, key, x);
        let i = choose|i: int|
            0 <= i < subs_of_children(tail).len() && subs_of_children(tail)[i].0 == x;
        assert(subs_of_children(cs)[head.len() + i] == subs_of_children(tail)[i]);
        assert(subs_of_children(cs)[head.len() + i].0 == x);
    }
}

proof fn lemma_has_id_node(n: Node, key: Seq<char>, x: u64)
    requires
        find_child(n, key) is Some,
        has_id(subs_of(find_child(n, key).unwrap()), x),
    ensures
        has_id(subs_of(n), x),
{
    lemma_has_id_found(n.children@, key, x);
    let i = choose|i: int|
        0 <= i < subs_of_children(n.children@).len() && subs_of_children(n.children@)[i].0 == x;
    assert(subs_of(n)[leaf_pairs(n).len() + i] == subs_of_children(n.children@)[i]);
    assert(subs_of(n)[leaf_pairs(n).len() + i].0 == x);
}

proof fn lemma_step_ids(n: Node, top: Seq<Seq<char>>, key: Seq<char>, x: u64)
    requires
        step(n, top, key).contains(x),
    ensures
        has_id(subs_of(n), x),
    decreases top.len(), 0int,
{
    let c = find_child(n, key).unwrap();
    if key == seg_hash() {
        lemma_has_id_leaf(c, x);
    } else if top.len() == 1 {
        if leaf_ids(c).contains(x) {
            lemma_has_id_leaf(c, x);
        } else {
            let g = find_child(c, seg_hash()).unwrap();
            assert(leaf_ids(g).contains(x));
            lemma_has_id_leaf(g, x);
            lemma_has_id_node(c, seg_hash(), x);
        }
    } else {
        lemma_walk_ids(c, top.subrange(1, top.len() as int), x);
    }
    lemma_has_id_node(n, key, x);
}

/// The walk never invents a handle: every handle it dispatches to holds
/// some subscription in the trie.
pub proof fn lemma_walk_ids(n: Node, top: Seq<Seq<char>>, x: u64)
    requires
        walk(n, top).contains(x),
    ensures
        has_id(subs_of(n), x),
    decreases top.len(), 1int,
{
    let p = top[0];
    let s1 = step(n, top, p);
    let s2 = if p != seg_hash() {
        step(n, top, seg_hash())
    } else {
        Seq::<u64>::empty()
    };
    let s3 = if p != seg_plus() {
        step(n, top, seg_plus())
    } else {
        Seq::<u64>::empty()
    };
    assert(walk(n, top) == s1 + s2 + s3);
    if s1.contains(x) {
        lemma_step_ids(n, top, p, x);
    } else if s2.contains(x) {
        lemma_step_ids(n, top, seg_hash(), x);
    } else {
        assert(s3.contains(x)) by {
            let i = choose|i: int| 0 <= i < walk(n, top).len() && walk(n, top)[i] == x;
            if i < s1.len() {
                assert(s1[i] == x);
            } else if i < s1.len() + s2.len() {
                assert(s2[i - s1.len()] == x);
            } else {
                assert(s3[i - s1.len() - s2.len()] == x);
            }
        }
        lemma_step_ids(n, top, seg_plus(), x);
    }
}

} // verus!
