//! The broker: a topic trie of subscriptions, subscribe/unsubscribe by
//! opaque subscriber handle, wildcard matching on publish, and an optional
//! exact-topic cache of match results that is cleared by every mutation.

use vstd::prelude::*;
use vstd::seq_lib::*;

use crate::topic::{seg_views, split_segments, split_topic, str_eq};
use crate::trie::{Node, add_subscription, collect_walk, ensure_path, keep_sub, remove_subs,
    subs_of, walk, wf_node};

verus! {

/// A consumer of published payloads.  The broker identifies subscribers by
/// opaque `u64` handles; a dispatcher maps each handle returned by
/// [`Broker::publish`] back to its subscriber and invokes this capability
/// once per matching subscription.
pub trait Subscriber {
    fn new_message(&mut self, bytes: &[u8]);
}

/// The views of a list of borrowed topic strings.
pub open spec fn str_views(ss: Seq<&str>) -> Seq<Seq<char>> {
    ss.map_values(|t: &str| t@)
}

proof fn lemma_filter_congruent<A>(s: Seq<A>, p: spec_fn(A) -> bool, q: spec_fn(A) -> bool)
    requires
        forall|i: int| 0 <= i < s.len() ==> p(s[i]) == q(s[i]),
    ensures
        s.filter(p) == s.filter(q),
    decreases s.len(),
{
    reveal(Seq::filter);
    if s.len() > 0 {
        lemma_filter_congruent(s.drop_last(), p, q);
    }
}

/// An in-process publish/subscribe topic router.
pub struct Broker {
    tree: Node,
    use_cache: bool,
    cache: Vec<(String, Vec<u64>)>,
}

impl Broker {
    /// The stored subscriptions: (subscriber handle, verbatim pattern)
    /// pairs, flattened from the trie in pre-order.
    pub closed spec fn subs(self) -> Seq<(u64, Seq<char>)> {
        subs_of(self.tree)
    }

    /// The handles a publish to the segments `top` dispatches, in delivery
    /// order.  This depends only on the stored subscriptions, never on the
    /// cache, so running with the cache enabled is indistinguishable from
    /// running without it.
    pub closed spec fn match_seq(self, top: Seq<Seq<char>>) -> Seq<u64> {
        walk(self.tree, top)
    }

    /// Whether the match-result cache is enabled.
    pub closed spec fn cache_enabled(self) -> bool {
        self.use_cache
    }

    /// The broker's invariant: the trie is well-formed and every cache
    /// entry holds exactly the match result of its topic against the
    /// current trie.
    pub closed spec fn inv(self) -> bool {
        &&& wf_node(self.tree, Seq::empty())
        &&& !self.use_cache ==> self.cache@.len() == 0
        &&& forall|k: int|
            0 <= k < self.cache@.len() ==> (#[trigger] self.cache@[k]).1@ == walk(
                self.tree,
                split_segments(self.cache@[k].0@),
            )
    }

    /// A fresh broker with no subscriptions.
    pub fn new(use_cache: bool) -> (r: Broker)
        ensures
            r.inv(),
            r.subs() == Seq::<(u64, Seq<char>)>::empty(),
            r.cache_enabled() == use_cache,
    {
        let r = Broker { tree: Node::new(), use_cache, cache: Vec::new() };
        r
    }

    /// Registers `subscriber` under the pattern `topic`.  Subscriptions
    /// are not deduplicated: subscribing twice stores two subscriptions,
    /// and each one is delivered to independently.
    pub fn subscribe(&mut self, subscriber: u64, topic: &str)
        requires
            old(self).inv(),
        ensures
            final(self).inv(),
            final(self).cache_enabled() == old(self).cache_enabled(),
            final(self).subs().to_multiset() == old(self).subs().to_multiset().insert(
                (subscriber, topic@),
            ),
    {
        if self.use_cache {
            self.cache.clear();
        }
        let parts = split_topic(topic);
        proof {
            assert(seg_views(parts@).subrange(0, parts@.len() as int) =~= seg_views(parts@));
            assert(Seq::<Seq<char>>::empty() + seg_views(parts@) =~= seg_views(parts@));
        }
        ensure_path(&mut self.tree, &parts, 0, Ghost(Seq::empty()));
        add_subscription(&mut self.tree, &parts, 0, subscriber, topic, Ghost(Seq::empty()));
    }

    /// Removes every subscription of `subscriber`, whatever its pattern.
    /// All other subscriptions survive, in unchanged order.
    pub fn unsubscribe_all(&mut self, subscriber: u64)
        requires
            old(self).inv(),
        ensures
            final(self).inv(),
            final(self).cache_enabled() == old(self).cache_enabled(),
            final(self).subs() == old(self).subs().filter(
                |pr: (u64, Seq<char>)| pr.0 != subscriber,
            ),
    {
        if self.use_cache {
            self.cache.clear();
        }
        let mut tmp = Node::new();
        core::mem::swap(&mut self.tree, &mut tmp);
        let none: Vec<String> = Vec::new();
        let newtree = remove_subs(tmp, subscriber, &none, false, Ghost(Seq::empty()));
        self.tree = newtree;
        proof {
            lemma_filter_congruent(
                old(self).subs(),
                |pr: (u64, Seq<char>)| keep_sub(pr, subscriber, seg_views(none@), false),
                |pr: (u64, Seq<char>)| pr.0 != subscriber,
            );
        }
    }

    /// Removes every subscription of `subscriber` whose verbatim pattern
    /// string is listed in `topics`; the comparison is exact string
    /// equality, with no wildcard interpretation.  Every other
    /// subscription, including the subscriber's own under other patterns,
    /// survives in unchanged order.
    pub fn unsubscribe(&mut self, subscriber: u64, topics: &[&str])
        requires
            old(self).inv(),
        ensures
            final(self).inv(),
            final(self).cache_enabled() == old(self).cache_enabled(),
            final(self).subs() == old(self).subs().filter(
                |pr: (u64, Seq<char>)|
                    !(pr.0 == subscriber && str_views(topics@).contains(pr.1)),
            ),
    {
        if self.use_cache {
            self.cache.clear();
        }
        let mut owned: Vec<String> = Vec::new();
        let mut k: usize = 0;
        while k < topics.len()
            invariant
                k <= topics@.len(),
                owned@.len() == k,
                forall|j: int| 0 <= j < k ==> (#[trigger] owned@[j])@ == topics@[j]@,
            decreases topics@.len() - k,
        {
            let t: &&str = vstd::slice::slice_index_get(topics, k);
            owned.push((*t).to_owned());
            k += 1;
        }
        proof {
            assert(seg_views(owned@) =~= str_views(topics@));
        }
        let mut tmp = Node::new();
        core::mem::swap(&mut self.tree, &mut tmp);
        let newtree = remove_subs(tmp, subscriber, &owned, true, Ghost(Seq::empty()));
        self.tree = newtree;
        proof {
            lemma_filter_congruent(
                old(self).subs(),
                |pr: (u64, Seq<char>)| keep_sub(pr, subscriber, seg_views(owned@), true),
                |pr: (u64, Seq<char>)|
                    !(pr.0 == subscriber && str_views(topics@).contains(pr.1)),
            );
        }
    }

    /// Matches `topic` against every stored subscription and returns the
    /// handles owed a delivery, in delivery order, one per matching
    /// subscription.  A dispatcher then invokes each handle's
    /// [`Subscriber::new_message`] with the published payload.  With the
    /// cache enabled, a repeated publish of the same topic string since
    /// the last mutation is answered from the cache; the result is the
    /// same either way.
    pub fn publish(&mut self, topic: &str) -> (r: Vec<u64>)
        requires
            old(self).inv(),
        ensures
            final(self).inv(),
            final(self).cache_enabled() == old(self).cache_enabled(),
            final(self).subs() == old(self).subs(),
            forall|u: Seq<Seq<char>>| final(self).match_seq(u) == old(self).match_seq(u),
            r@ == old(self).match_seq(split_segments(topic@)),
            forall|x: u64|
                r@.contains(x) ==> crate::trie::has_id(old(self).subs(), x),
    {
        proof {
            assert forall|x: u64|
                old(self).match_seq(split_segments(topic@)).contains(x) implies crate::trie::has_id(
                old(self).subs(),
                x,
            ) by {
                crate::trie::lemma_walk_ids(old(self).tree, split_segments(topic@), x);
            }
        }
        if self.use_cache {
            let mut k: usize = 0;
            while k < self.cache.len()
                invariant
                    old(self).inv(),
                    *self == *old(self),
                decreases self.cache@.len() - k,
            {
                if str_eq(self.cache[k].0.as_str(), topic) {
                    let hit = copy_ids(&self.cache[k].1);
                    proof {
                        assert forall|x: u64| hit@.contains(x) implies crate::trie::has_id(
                            old(self).subs(),
                            x,
                        ) by {
                            crate::trie::lemma_walk_ids(old(self).tree, split_segments(topic@), x);
                        }
                    }
                    return hit;
                }
                k += 1;
            }
        }
        let parts = split_topic(topic);
        let mut out: Vec<u64> = Vec::new();
        collect_walk(&self.tree, &parts, 0, &mut out);
        proof {
            assert(seg_views(parts@).subrange(0, parts@.len() as int) =~= seg_views(parts@));
        }
        if self.use_cache && out.len() > 0 {
            let entry = (topic.to_owned(), copy_ids(&out));
            self.cache.push(entry);
        }
        out
    }
}

/// With no subscriptions stored, a publish delivers to nobody, whatever
/// the topic.
pub proof fn lemma_no_subscribers_no_delivery(b: Broker, top: Seq<Seq<char>>)
    requires
        b.subs() == Seq::<(u64, Seq<char>)>::empty(),
    ensures
        b.match_seq(top) == Seq::<u64>::empty(),
{
    let w = b.match_seq(top);
    if w.len() > 0 {
        assert(w.contains(w[0]));
        crate::trie::lemma_walk_ids(b.tree, top, w[0]);
    }
    assert(w =~= Seq::<u64>::empty());
}

/// A handle that holds no subscription is never delivered to: once
/// unsubscribed everywhere, no later publish reaches it.
pub proof fn lemma_absent_subscriber_silent(b: Broker, top: Seq<Seq<char>>, x: u64)
    requires
        !crate::trie::has_id(b.subs(), x),
    ensures
        !b.match_seq(top).contains(x),
{
    if b.match_seq(top).contains(x) {
        crate::trie::lemma_walk_ids(b.tree, top, x);
    }
}

/// What `unsubscribe_all` leaves behind holds nothing of the removed
/// handle, so together with the lemma above no later publish reaches it.
pub proof fn lemma_unsubscribe_all_removes(subs: Seq<(u64, Seq<char>)>, x: u64)
    ensures
        !crate::trie::has_id(subs.filter(|pr: (u64, Seq<char>)| pr.0 != x), x),
{
    let kept = subs.filter(|pr: (u64, Seq<char>)| pr.0 != x);
    assert forall|i: int| 0 <= i < kept.len() implies (#[trigger] kept[i]).0 != x by {
        subs.lemma_filter_pred(|pr: (u64, Seq<char>)| pr.0 != x, i);
    }
}

/// Subscribing the same handle under the same pattern twice stores two
/// independent subscriptions: the stored count of that pair grows by two,
/// as the ensures of two `subscribe` calls in a row leave it.
pub proof fn lemma_double_subscribe_stores_two(b0: Broker, b2: Broker, s: u64, t: Seq<char>)
    requires
        b2.subs().to_multiset() == b0.subs().to_multiset().insert((s, t)).insert((s, t)),
    ensures
        b2.subs().to_multiset().count((s, t)) == b0.subs().to_multiset().count((s, t)) + 2,
{
    broadcast use vstd::multiset::group_multiset_axioms;

}

/// Copies a list of subscriber handles.
fn copy_ids(v: &Vec<u64>) -> (r: Vec<u64>)
    ensures
        r@ == v@,
{
    let mut r: Vec<u64> = Vec::new();
    let mut k: usize = 0;
    while k < v.len()
        invariant
            k <= v@.len(),
            r@ == v@.subrange(0, k as int),
        decreases v@.len() - k,
    {
        r.push(v[k]);
        proof {
            assert(v@.subrange(0, k + 1) =~= v@.subrange(0, k as int).push(v@[k as int]));
        }
        k += 1;
    }
    proof {
        assert(v@.subrange(0, v@.len() as int) =~= v@);
    }
    r
}

} // verus!
