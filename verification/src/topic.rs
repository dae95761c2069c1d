//! Topic strings, their `/`-separated segments, and the wildcard
//! matching relation between a subscription pattern and a published topic.

use vstd::prelude::*;

verus! {

/// The multi-level wildcard segment `#`.
pub open spec fn seg_hash() -> Seq<char> {
    seq!['#']
}

/// The single-level wildcard segment `+`.
pub open spec fn seg_plus() -> Seq<char> {
    seq!['+']
}

/// The segments of a topic string: the substrings between `/` delimiters.
/// There is always at least one segment; empty segments are kept, so a
/// leading `/` or two adjacent `/` produce empty-string segments.
pub open spec fn split_segments(s: Seq<char>) -> Seq<Seq<char>>
    decreases s.len(),
{
    if s.len() == 0 {
        seq![Seq::<char>::empty()]
    } else if s[0] == '/' {
        seq![Seq::<char>::empty()] + split_segments(s.subrange(1, s.len() as int))
    } else {
        let rest = split_segments(s.subrange(1, s.len() as int));
        seq![seq![s[0]] + rest[0]] + rest.subrange(1, rest.len() as int)
    }
}

pub proof fn lemma_split_segments_len(s: Seq<char>)
    ensures
        split_segments(s).len() >= 1,
    decreases s.len(),
{
    if s.len() != 0 {
        lemma_split_segments_len(s.subrange(1, s.len() as int));
    }
}

/// Whether a subscription pattern matches a published topic, both given as
/// their segment sequences.  A whole segment equal to `#` or `+` is a
/// wildcard; `#` or `+` inside a longer segment has no special meaning.
/// `+` matches exactly one segment at its position.  A pattern ending in
/// `/#` matches every topic extending its prefix, including the bare
/// prefix itself; a `#` that is not the last pattern segment matches
/// nothing, since matching never continues past a `#`.
pub open spec fn topic_matches(pat: Seq<Seq<char>>, top: Seq<Seq<char>>) -> bool
    decreases top.len(),
{
    if pat.len() == 0 || top.len() == 0 {
        false
    } else if pat[0] == seg_hash() {
        pat.len() == 1
    } else if pat[0] == top[0] || pat[0] == seg_plus() {
        if top.len() == 1 {
            pat.len() == 1 || (pat.len() == 2 && pat[1] == seg_hash())
        } else {
            topic_matches(pat.subrange(1, pat.len() as int), top.subrange(1, top.len() as int))
        }
    } else {
        false
    }
}

/// The pattern `#` alone matches every topic.
pub proof fn lemma_hash_alone(top: Seq<Seq<char>>)
    requires
        top.len() >= 1,
    ensures
        topic_matches(seq![seg_hash()], top),
{
}

/// A pattern `pre/#` matches the bare `pre` itself, with no trailing
/// segments, whenever `pre` contains no `#` segment of its own (a `#`
/// inside `pre` would already have ended the match).
pub proof fn lemma_hash_zero_suffix(pre: Seq<Seq<char>>)
    requires
        pre.len() >= 1,
        forall|i: int| 0 <= i < pre.len() ==> pre[i] != seg_hash(),
    ensures
        topic_matches(pre.push(seg_hash()), pre),
    decreases pre.len(),
{
    let pat = pre.push(seg_hash());
    if pre.len() == 1 {
        assert(pat.len() == 2 && pat[1] == seg_hash());
    } else {
        let pre2 = pre.subrange(1, pre.len() as int);
        assert(forall|i: int| 0 <= i < pre2.len() ==> pre2[i] == pre[i + 1]);
        lemma_hash_zero_suffix(pre2);
        assert(pat.subrange(1, pat.len() as int) =~= pre2.push(seg_hash()));
    }
}

/// A matching pattern that ends in `#` keeps matching however many
/// further segments the topic grows by: `#` matches any longer suffix.
pub proof fn lemma_hash_extends(pat: Seq<Seq<char>>, top: Seq<Seq<char>>, s: Seq<char>)
    requires
        topic_matches(pat, top),
        pat[pat.len() - 1] == seg_hash(),
    ensures
        topic_matches(pat, top.push(s)),
    decreases top.len(),
{
    let top2 = top.push(s);
    if pat[0] == seg_hash() {
        assert(pat.len() == 1);
    } else if top.len() == 1 {
        assert(pat.len() == 2 && pat[1] == seg_hash());
        assert(top2.len() == 2);
        assert(pat.subrange(1, 2) =~= seq![seg_hash()]);
        assert(top2.subrange(1, 2) =~= seq![s]);
        lemma_hash_alone(top2.subrange(1, 2));
    } else {
        let pt = pat.subrange(1, pat.len() as int);
        let tt = top.subrange(1, top.len() as int);
        assert(topic_matches(pt, tt));
        assert(pt.len() >= 1);
        assert(pt[pt.len() - 1] == seg_hash());
        lemma_hash_extends(pt, tt, s);
        assert(top2.subrange(1, top2.len() as int) =~= tt.push(s));
    }
}

/// The wildcard `+` matches exactly one segment, whatever it is: a
/// pattern `pre/+` matches `pre/s` for every segment `s`, as long as no
/// `#` in `pre` has already ended the match.
pub proof fn lemma_plus_any(pre: Seq<Seq<char>>, s: Seq<char>)
    requires
        forall|i: int| 0 <= i < pre.len() ==> pre[i] != seg_hash(),
    ensures
        topic_matches(pre.push(seg_plus()), pre.push(s)),
    decreases pre.len(),
{
    let pat = pre.push(seg_plus());
    let top = pre.push(s);
    if pre.len() == 0 {
        assert(pat[0] == seg_plus());
    } else {
        let pre2 = pre.subrange(1, pre.len() as int);
        assert(forall|i: int| 0 <= i < pre2.len() ==> pre2[i] == pre[i + 1]);
        lemma_plus_any(pre2, s);
        assert(pat.subrange(1, pat.len() as int) =~= pre2.push(seg_plus()));
        assert(top.subrange(1, top.len() as int) =~= pre2.push(s));
        assert(pat[0] == pre[0] && top[0] == pre[0]);
    }
}

/// Without a `#`, a pattern can only match topics of exactly its own
/// length: in particular `+` never absorbs more than one segment.
pub proof fn lemma_no_hash_same_len(pat: Seq<Seq<char>>, top: Seq<Seq<char>>)
    requires
        topic_matches(pat, top),
        forall|i: int| 0 <= i < pat.len() ==> pat[i] != seg_hash(),
    ensures
        pat.len() == top.len(),
    decreases top.len(),
{
    if top.len() > 1 {
        let pt = pat.subrange(1, pat.len() as int);
        let tt = top.subrange(1, top.len() as int);
        assert(forall|i: int| 0 <= i < pt.len() ==> pt[i] == pat[i + 1]);
        lemma_no_hash_same_len(pt, tt);
    }
}

/// A pattern with no whole-segment wildcard matches exactly one topic:
/// itself.  In particular a segment merely containing `#` or `+` inside a
/// longer token is an ordinary literal.
pub proof fn lemma_literal_exact(pat: Seq<Seq<char>>, top: Seq<Seq<char>>)
    requires
        pat.len() >= 1,
        top.len() >= 1,
        forall|i: int| 0 <= i < pat.len() ==> pat[i] != seg_hash() && pat[i] != seg_plus(),
    ensures
        topic_matches(pat, top) == (pat =~= top),
    decreases top.len(),
{
    reveal_with_fuel(topic_matches, 3);
    if top.len() == 1 {
        if pat.len() == 1 {
            assert(topic_matches(pat, top) == (pat[0] == top[0]));
            if pat[0] == top[0] {
                assert(pat =~= top);
            }
        } else {
            assert(pat[1] != seg_hash());
            assert(!topic_matches(pat, top));
            assert(pat.len() != top.len());
        }
    } else {
        if pat.len() == 1 {
            assert(pat.subrange(1, 1) =~= Seq::<Seq<char>>::empty());
            assert(!topic_matches(pat, top));
        } else {
            let pt = pat.subrange(1, pat.len() as int);
            let tt = top.subrange(1, top.len() as int);
            assert(forall|i: int| 0 <= i < pt.len() ==> pt[i] == pat[i + 1]);
            assert(forall|i: int| 0 <= i < tt.len() ==> tt[i] == top[i + 1]);
            lemma_literal_exact(pt, tt);
            if pat[0] == top[0] {
                assert(topic_matches(pat, top) == topic_matches(pt, tt));
                if pt =~= tt {
                    assert(forall|i: int| 1 <= i < pat.len() ==> pat[i] == top[i]) by {
                        assert(forall|i: int| 1 <= i < pat.len() ==> pat[i] == pt[i - 1]);
                        assert(forall|i: int| 1 <= i < top.len() ==> top[i] == tt[i - 1]);
                    }
                    assert(pat =~= top);
                }
                if pat =~= top {
                    assert(pt =~= tt);
                }
            } else {
                assert(!topic_matches(pat, top));
            }
        }
    }
}

/// How the segments change when one more character of the topic is read:
/// a `/` closes the current segment, any other character extends it.
pub proof fn lemma_split_segments_push(s: Seq<char>, c: char)
    ensures
        c == '/' ==> split_segments(s.push(c)) == split_segments(s).push(Seq::<char>::empty()),
        c != '/' ==> split_segments(s.push(c)) == split_segments(s).drop_last().push(
            split_segments(s).last().push(c),
        ),
    decreases s.len(),
{
    reveal_with_fuel(split_segments, 3);
    lemma_split_segments_len(s);
    if s.len() == 0 {
        assert(s.push(c) =~= seq![c]);
        if c == '/' {
            assert(seq![c].subrange(1, 1) =~= Seq::<char>::empty());
            assert(split_segments(s.push(c)) =~= split_segments(s).push(Seq::<char>::empty()));
        } else {
            assert(seq![c].subrange(1, 1) =~= Seq::<char>::empty());
            assert(split_segments(s.push(c)) =~= split_segments(s).drop_last().push(
                split_segments(s).last().push(c),
            ));
        }
    } else {
        let tail = s.subrange(1, s.len() as int);
        lemma_split_segments_len(tail);
        assert(s.push(c)[0] == s[0]);
        assert(s.push(c).subrange(1, s.len() as int + 1) =~= tail.push(c));
        lemma_split_segments_push(tail, c);
        let r = split_segments(tail);
        let rp = split_segments(tail.push(c));
        if s[0] == '/' {
            if c == '/' {
                assert(split_segments(s.push(c)) =~= (seq![Seq::<char>::empty()] + r).push(
                    Seq::<char>::empty(),
                ));
            } else {
                assert((seq![Seq::<char>::empty()] + r).last() == r.last());
                assert(split_segments(s.push(c)) =~= (seq![Seq::<char>::empty()]
                    + r).drop_last().push((seq![Seq::<char>::empty()] + r).last().push(c)));
            }
        } else {
            if c == '/' {
                assert(rp[0] == r[0]);
                assert(rp.subrange(1, rp.len() as int) =~= r.subrange(1, r.len() as int).push(
                    Seq::<char>::empty(),
                ));
                assert(split_segments(s.push(c)) =~= (seq![seq![s[0]] + r[0]] + r.subrange(
                    1,
                    r.len() as int,
                )).push(Seq::<char>::empty()));
            } else {
                if r.len() == 1 {
                    assert(rp =~= seq![r[0].push(c)]);
                    assert(rp.subrange(1, 1) =~= Seq::<Seq<char>>::empty());
                    assert(split_segments(s) =~= seq![seq![s[0]] + r[0]]);
                    assert(seq![s[0]] + r[0].push(c) =~= (seq![s[0]] + r[0]).push(c));
                    assert(split_segments(s.push(c)) =~= split_segments(s).drop_last().push(
                        split_segments(s).last().push(c),
                    ));
                } else {
                    assert(rp[0] == r[0]);
                    assert(rp.subrange(1, rp.len() as int) =~= r.subrange(
                        1,
                        r.len() as int,
                    ).drop_last().push(r.last().push(c)));
                    assert(split_segments(s.push(c)) =~= (seq![seq![s[0]] + r[0]] + r.subrange(
                        1,
                        r.len() as int,
                    )).drop_last().push((seq![seq![s[0]] + r[0]] + r.subrange(
                        1,
                        r.len() as int,
                    )).last().push(c)));
                }
            }
        }
    }
}

/// The views of a list of owned segment strings.
pub open spec fn seg_views(ss: Seq<String>) -> Seq<Seq<char>> {
    ss.map_values(|t: String| t@)
}

/// Splits a topic string on `/` into its owned segments.
pub fn split_topic(topic: &str) -> (segs: Vec<String>)
    ensures
        seg_views(segs@) == split_segments(topic@),
{
    let n = topic.unicode_len();
    let mut segs: Vec<String> = Vec::new();
    let mut start: usize = 0;
    let mut i: usize = 0;
    proof {
        assert(topic@.subrange(0, 0) =~= Seq::<char>::empty());
        assert(seg_views(segs@).push(topic@.subrange(0, 0)) =~= split_segments(
            topic@.subrange(0, 0),
        ));
    }
    while i < n
        invariant
            n == topic@.len(),
            start <= i <= n,
            seg_views(segs@).push(topic@.subrange(start as int, i as int)) == split_segments(
                topic@.subrange(0, i as int),
            ),
        decreases n - i,
    {
        let c = topic.get_char(i);
        proof {
            assert(topic@.subrange(0, i + 1) =~= topic@.subrange(0, i as int).push(
                topic@[i as int],
            ));
            lemma_split_segments_push(topic@.subrange(0, i as int), topic@[i as int]);
        }
        if c == '/' {
            let seg = topic.substring_char(start, i);
            segs.push(seg.to_owned());
            proof {
                assert(seg_views(segs@).push(Seq::<char>::empty()) =~= split_segments(
                    topic@.subrange(0, i + 1),
                ));
                assert(topic@.subrange(i + 1, i + 1) =~= Seq::<char>::empty());
            }
            start = i + 1;
        } else {
            proof {
                assert(topic@.subrange(start as int, i + 1) =~= topic@.subrange(
                    start as int,
                    i as int,
                ).push(topic@[i as int]));
                assert(seg_views(segs@).push(topic@.subrange(start as int, i + 1)) =~=
                    split_segments(topic@.subrange(0, i + 1)));
            }
        }
        i += 1;
    }
    let last = topic.substring_char(start, n);
    segs.push(last.to_owned());
    proof {
        assert(topic@.subrange(0, n as int) =~= topic@);
        assert(seg_views(segs@) =~= split_segments(topic@));
    }
    segs
}

/// Whether a segment is the single character `c`.
pub fn seg_is_char(s: &str, c: char) -> (b: bool)
    ensures
        b == (s@ == seq![c]),
{
    if s.unicode_len() == 1 {
        let c0 = s.get_char(0);
        proof {
            if c0 == c {
                assert(s@ =~= seq![c]);
            }
        }
        c0 == c
    } else {
        false
    }
}

/// Character-by-character string equality.
pub fn str_eq(a: &str, b: &str) -> (r: bool)
    ensures
        r == (a@ == b@),
{
    let n = a.unicode_len();
    if n != b.unicode_len() {
        return false;
    }
    let mut i: usize = 0;
    while i < n
        invariant
            n == a@.len(),
            n == b@.len(),
            i <= n,
            forall|k: int| 0 <= k < i ==> a@[k] == b@[k],
        decreases n - i,
    {
        if a.get_char(i) != b.get_char(i) {
            return false;
        }
        i += 1;
    }
    proof {
        assert(a@ =~= b@);
    }
    true
}

} // verus!
