//! A token trie for wildcard subscriptions. Each node holds the
//! subscriptions that end at it, the `>` subscriptions whose remaining
//! token is `>`, and one child per next token (`*` is an ordinary key).

use smallvec::SmallVec;
use vstd::prelude::*;
use vstd::seq_lib::*;

use crate::id::SubscriptionId;
use crate::subject::Subject;
use crate::text::views;

verus! {

broadcast use group_to_multiset_ensures;

/// One subscription stored in the trie: the tokens of the node that holds
/// it, its id, and whether it is a `>` subscription at that node.
pub struct TrieEntry {
    pub path: Seq<Seq<char>>,
    pub id: SubscriptionId,
    pub multi: bool,
}

/// `path` matches the first `path.len()` tokens of `s`, where a path token
/// `*` matches any subject token.
pub open spec fn prefix_match(path: Seq<Seq<char>>, s: Seq<Seq<char>>) -> bool {
    &&& path.len() <= s.len()
    &&& forall|i: int| 0 <= i < path.len() ==> #[trigger] path[i] == s[i] || path[i] == seq!['*']
}

/// Whether a stored subscription matches the subject tokens `s`: its path
/// matches a prefix of `s`, and then either nothing remains (an exact
/// subscription) or at least one token remains (a `>` subscription).
pub open spec fn entry_matches(e: TrieEntry, s: Seq<Seq<char>>) -> bool {
    &&& prefix_match(e.path, s)
    &&& if e.multi {
        s.len() > e.path.len()
    } else {
        s.len() == e.path.len()
    }
}

/// The entry that `insert(tokens, id, multi)` stores: a `>` subscription
/// sits at the node of all tokens but the last.
pub open spec fn insert_entry(tokens: Seq<Seq<char>>, id: SubscriptionId, multi: bool) -> TrieEntry {
    if multi && tokens.len() > 0 {
        TrieEntry { path: tokens.drop_last(), id, multi: true }
    } else {
        TrieEntry { path: tokens, id, multi: false }
    }
}

/// The ids of the given entries.
pub open spec fn ids_of(es: Seq<TrieEntry>) -> Seq<SubscriptionId> {
    es.map_values(|e: TrieEntry| e.id)
}

/// The entries among `es` that match the subject tokens `s`.
pub open spec fn matching(es: Seq<TrieEntry>, s: Seq<Seq<char>>) -> Seq<TrieEntry> {
    es.filter(|e: TrieEntry| entry_matches(e, s))
}

/// The entries other than `e`.
pub open spec fn without(es: Seq<TrieEntry>, e: TrieEntry) -> Seq<TrieEntry> {
    es.filter(other_than(e))
}

/// The test "is not `id`".
pub open spec fn not_id(id: SubscriptionId) -> spec_fn(SubscriptionId) -> bool {
    |x: SubscriptionId| x != id
}

/// The test "is not `e`".
pub open spec fn other_than(e: TrieEntry) -> spec_fn(TrieEntry) -> bool {
    |x: TrieEntry| x != e
}

struct TrieNode {
    children: Vec<(String, TrieNode)>,
    multi_wildcard_subs: Vec<SubscriptionId>,
    exact_subs: Vec<SubscriptionId>,
}

spec fn entries_of(ids: Seq<SubscriptionId>, path: Seq<Seq<char>>, multi: bool) -> Seq<TrieEntry> {
    ids.map_values(|id: SubscriptionId| TrieEntry { path, id, multi })
}

spec fn node_seq(node: TrieNode, path: Seq<Seq<char>>) -> Seq<TrieEntry>
    decreases node, 0nat,
{
    entries_of(node.multi_wildcard_subs@, path, true) + entries_of(node.exact_subs@, path, false)
        + children_seq(node.children@, path)
}

spec fn children_seq(cs: Seq<(String, TrieNode)>, path: Seq<Seq<char>>) -> Seq<TrieEntry>
    decreases cs, 1nat,
{
    if cs.len() == 0 {
        Seq::empty()
    } else {
        children_seq(cs.drop_last(), path) + node_seq(cs.last().1, path.push(cs.last().0@))
    }
}

spec fn keys_unique(cs: Seq<(String, TrieNode)>) -> bool {
    forall|i: int, j: int| 0 <= i < j < cs.len() ==> #[trigger] cs[i].0@ != #[trigger] cs[j].0@
}

spec fn node_wf(node: TrieNode) -> bool
    decreases node, 0nat,
{
    keys_unique(node.children@) && children_wf(node.children@)
}

spec fn children_wf(cs: Seq<(String, TrieNode)>) -> bool
    decreases cs, 1nat,
{
    if cs.len() == 0 {
        true
    } else {
        children_wf(cs.drop_last()) && node_wf(cs.last().1)
    }
}

spec fn extends(q: Seq<Seq<char>>, p: Seq<Seq<char>>) -> bool {
    q.len() >= p.len() && q.subrange(0, p.len() as int) == p
}

proof fn lemma_filter_all<A>(s: Seq<A>, p: spec_fn(A) -> bool)
    requires
        forall|i: int| 0 <= i < s.len() ==> p(#[trigger] s[i]),
    ensures
        s.filter(p) == s,
    decreases s.len(),
{
    reveal(Seq::filter);
    if s.len() > 0 {
        lemma_filter_all(s.drop_last(), p);
        assert(s.drop_last().push(s.last()) =~= s);
    }
}

proof fn lemma_filter_none<A>(s: Seq<A>, p: spec_fn(A) -> bool)
    requires
        forall|i: int| 0 <= i < s.len() ==> !p(#[trigger] s[i]),
    ensures
        s.filter(p) == Seq::<A>::empty(),
    decreases s.len(),
{
    reveal(Seq::filter);
    if s.len() > 0 {
        lemma_filter_none(s.drop_last(), p);
    }
}

proof fn lemma_map_add<A, B>(a: Seq<A>, b: Seq<A>, f: spec_fn(A) -> B)
    ensures
        (a + b).map_values(f) == a.map_values(f) + b.map_values(f),
{
    assert((a + b).map_values(f) =~= a.map_values(f) + b.map_values(f));
}

proof fn lemma_children_wf(cs: Seq<(String, TrieNode)>)
    ensures
        children_wf(cs) <==> forall|i: int| 0 <= i < cs.len() ==> #[trigger] node_wf(cs[i].1),
    decreases cs.len(),
{
    if cs.len() > 0 {
        lemma_children_wf(cs.drop_last());
        if children_wf(cs) {
            assert forall|i: int| 0 <= i < cs.len() implies #[trigger] node_wf(cs[i].1) by {
                if i < cs.len() - 1 {
                    assert(cs.drop_last()[i] == cs[i]);
                }
            }
        }
        if forall|i: int| 0 <= i < cs.len() ==> #[trigger] node_wf(cs[i].1) {
            assert forall|i: int| 0 <= i < cs.drop_last().len() implies #[trigger] node_wf(
                cs.drop_last()[i].1,
            ) by {
                assert(cs.drop_last()[i] == cs[i]);
            }
            assert(node_wf(cs[cs.len() - 1].1));
        }
    }
}

/// Every entry below a node has a path that extends the node's path.
proof fn lemma_node_paths(node: TrieNode, path: Seq<Seq<char>>)
    ensures
        forall|k: int|
            0 <= k < node_seq(node, path).len() ==> #[trigger] extends(
                node_seq(node, path)[k].path,
                path,
            ),
    decreases node, 0nat,
{
    let a = entries_of(node.multi_wildcard_subs@, path, true);
    let b = entries_of(node.exact_subs@, path, false);
    let c = children_seq(node.children@, path);
    lemma_children_paths(node.children@, path);
    assert forall|k: int| 0 <= k < node_seq(node, path).len() implies #[trigger] extends(
        node_seq(node, path)[k].path,
        path,
    ) by {
        assert(path.subrange(0, path.len() as int) =~= path);
        if k >= a.len() + b.len() {
            assert(node_seq(node, path)[k] == c[k - a.len() - b.len()]);
        }
    }
}

proof fn lemma_children_paths(cs: Seq<(String, TrieNode)>, path: Seq<Seq<char>>)
    ensures
        forall|k: int|
            0 <= k < children_seq(cs, path).len() ==> #[trigger] extends(
                children_seq(cs, path)[k].path,
                path,
            ) && children_seq(cs, path)[k].path.len() > path.len() && exists|j: int|
                0 <= j < cs.len() && children_seq(cs, path)[k].path[path.len() as int]
                    == cs[j].0@,
    decreases cs, 1nat,
{
    if cs.len() > 0 {
        let rest = children_seq(cs.drop_last(), path);
        let p2 = path.push(cs.last().0@);
        let last = node_seq(cs.last().1, p2);
        lemma_children_paths(cs.drop_last(), path);
        lemma_node_paths(cs.last().1, p2);
        assert forall|k: int| 0 <= k < children_seq(cs, path).len() implies #[trigger] extends(
            children_seq(cs, path)[k].path,
            path,
        ) && children_seq(cs, path)[k].path.len() > path.len() && exists|j: int|
            0 <= j < cs.len() && children_seq(cs, path)[k].path[path.len() as int] == cs[j].0@ by {
            if k < rest.len() {
                assert(children_seq(cs, path)[k] == rest[k]);
                assert(extends(rest[k].path, path));
                let j = choose|j: int|
                    0 <= j < cs.drop_last().len() && rest[k].path[path.len() as int]
                        == cs.drop_last()[j].0@;
                assert(cs.drop_last()[j] == cs[j]);
            } else {
                let q = last[k - rest.len()].path;
                assert(children_seq(cs, path)[k] == last[k - rest.len()]);
                assert(extends(q, p2));
                assert(q.subrange(0, p2.len() as int)[path.len() as int] == q[path.len() as int]);
                assert(q[path.len() as int] == cs[cs.len() - 1].0@);
                assert(q.subrange(0, path.len() as int) =~= q.subrange(
                    0,
                    p2.len() as int,
                ).subrange(0, path.len() as int));
                assert(p2.subrange(0, path.len() as int) =~= path);
            }
        }
    }
}

/// Nothing below a node whose path does not match a prefix of `s` matches `s`.
proof fn lemma_no_match(node: TrieNode, path: Seq<Seq<char>>, s: Seq<Seq<char>>)
    requires
        !prefix_match(path, s),
    ensures
        matching(node_seq(node, path), s) == Seq::<TrieEntry>::empty(),
{
    lemma_node_paths(node, path);
    let es = node_seq(node, path);
    assert forall|k: int| 0 <= k < es.len() implies !entry_matches(#[trigger] es[k], s) by {
        let q = es[k].path;
        assert(extends(q, path));
        if prefix_match(q, s) {
            assert forall|i: int| 0 <= i < path.len() implies #[trigger] path[i] == s[i] || path[i]
                == seq!['*'] by {
                assert(q.subrange(0, path.len() as int)[i] == q[i]);
            }
        }
    }
    lemma_filter_none(es, |e: TrieEntry| entry_matches(e, s));
}

/// The children of a node at the end of the subject match nothing.
proof fn lemma_children_too_deep(cs: Seq<(String, TrieNode)>, path: Seq<Seq<char>>, s: Seq<Seq<char>>)
    requires
        path.len() >= s.len(),
    ensures
        matching(children_seq(cs, path), s) == Seq::<TrieEntry>::empty(),
{
    lemma_children_paths(cs, path);
    let es = children_seq(cs, path);
    assert forall|k: int| 0 <= k < es.len() implies !entry_matches(#[trigger] es[k], s) by {
        assert(extends(es[k].path, path));
    }
    lemma_filter_none(es, |e: TrieEntry| entry_matches(e, s));
}

proof fn lemma_entries_ids(ids: Seq<SubscriptionId>, path: Seq<Seq<char>>, multi: bool)
    ensures
        ids_of(entries_of(ids, path, multi)) == ids,
{
    assert(ids_of(entries_of(ids, path, multi)) =~= ids);
}

proof fn lemma_node_split(node: TrieNode, path: Seq<Seq<char>>, s: Seq<Seq<char>>)
    ensures
        ids_of(matching(node_seq(node, path), s)) == ids_of(
            matching(entries_of(node.multi_wildcard_subs@, path, true), s),
        ) + ids_of(matching(entries_of(node.exact_subs@, path, false), s)) + ids_of(
            matching(children_seq(node.children@, path), s),
        ),
{
    let a = entries_of(node.multi_wildcard_subs@, path, true);
    let b = entries_of(node.exact_subs@, path, false);
    let c = children_seq(node.children@, path);
    let f = |e: TrieEntry| entry_matches(e, s);
    Seq::filter_distributes_over_add(a + b, c, f);
    Seq::filter_distributes_over_add(a, b, f);
    lemma_map_add(a.filter(f) + b.filter(f), c.filter(f), |e: TrieEntry| e.id);
    lemma_map_add(a.filter(f), b.filter(f), |e: TrieEntry| e.id);
}

proof fn lemma_children_step(cs: Seq<(String, TrieNode)>, i: int, path: Seq<Seq<char>>, s: Seq<
    Seq<char>,
>)
    requires
        0 <= i < cs.len(),
    ensures
        ids_of(matching(children_seq(cs.take(i + 1), path), s)) == ids_of(
            matching(children_seq(cs.take(i), path), s),
        ) + ids_of(matching(node_seq(cs[i].1, path.push(cs[i].0@)), s)),
{
    let t = cs.take(i + 1);
    assert(t.drop_last() =~= cs.take(i));
    assert(t.last() == cs[i]);
    let f = |e: TrieEntry| entry_matches(e, s);
    Seq::filter_distributes_over_add(
        children_seq(cs.take(i), path),
        node_seq(cs[i].1, path.push(cs[i].0@)),
        f,
    );
    lemma_map_add(
        children_seq(cs.take(i), path).filter(f),
        node_seq(cs[i].1, path.push(cs[i].0@)).filter(f),
        |e: TrieEntry| e.id,
    );
}

/// Appends `v` to `out`.
fn append_ids(out: &mut MatchResult, v: &Vec<SubscriptionId>)
    ensures
        final(out)@ == old(out)@ + v@,
{
    let ghost start = out@;
    let mut i: usize = 0;
    while i < v.len()
        invariant
            i <= v@.len(),
            out@ == start + v@.subrange(0, i as int),
        decreases v@.len() - i,
    {
        out.push(v[i]);
        i = i + 1;
        assert(v@.subrange(0, i as int) == v@.subrange(0, i - 1) + seq![v@[i - 1]]);
    }
    assert(v@.subrange(0, v@.len() as int) == v@);
}

/// Whether `key` is the one-character token `*`.
fn is_star(key: &String) -> (r: bool)
    ensures
        r == (key@ == seq!['*']),
{
    let cs = crate::text::chars_of(key.as_str());
    if cs.len() == 1 && cs[0] == '*' {
        assert(cs@ =~= seq!['*']);
        true
    } else {
        false
    }
}


proof fn lemma_ms_push_first(a: Seq<TrieEntry>, b: Seq<TrieEntry>, c: Seq<TrieEntry>, e: TrieEntry)
    ensures
        (a.push(e) + b + c).to_multiset() == (a + b + c).to_multiset().insert(e),
{
    broadcast use lemma_multiset_commutative;
    broadcast use vstd::multiset::group_multiset_axioms;

    assert((a.push(e) + b + c).to_multiset() =~= (a + b + c).to_multiset().insert(e));
}

proof fn lemma_ms_push_second(a: Seq<TrieEntry>, b: Seq<TrieEntry>, c: Seq<TrieEntry>, e: TrieEntry)
    ensures
        (a + b.push(e) + c).to_multiset() == (a + b + c).to_multiset().insert(e),
{
    broadcast use lemma_multiset_commutative;
    broadcast use vstd::multiset::group_multiset_axioms;

    assert((a + b.push(e) + c).to_multiset() =~= (a + b + c).to_multiset().insert(e));
}

proof fn lemma_entries_push(v: Seq<SubscriptionId>, id: SubscriptionId, path: Seq<Seq<char>>, multi: bool)
    ensures
        entries_of(v.push(id), path, multi) == entries_of(v, path, multi).push(
            TrieEntry { path, id, multi },
        ),
{
    assert(entries_of(v.push(id), path, multi) =~= entries_of(v, path, multi).push(
        TrieEntry { path, id, multi },
    ));
}

proof fn lemma_children_update_ms(
    cs: Seq<(String, TrieNode)>,
    k: int,
    x: (String, TrieNode),
    path: Seq<Seq<char>>,
)
    requires
        0 <= k < cs.len(),
        x.0@ == cs[k].0@,
    ensures
        children_seq(cs.update(k, x), path).to_multiset().add(
            node_seq(cs[k].1, path.push(cs[k].0@)).to_multiset(),
        ) == children_seq(cs, path).to_multiset().add(
            node_seq(x.1, path.push(x.0@)).to_multiset(),
        ),
    decreases cs.len(),
{
    broadcast use vstd::multiset::group_multiset_axioms;

    let u = cs.update(k, x);
    let xs = node_seq(x.1, path.push(x.0@));
    let cks = node_seq(cs[k].1, path.push(cs[k].0@));
    if k == cs.len() - 1 {
        assert(u.drop_last() =~= cs.drop_last());
        assert(u.last() == x);
        let r = children_seq(cs.drop_last(), path);
        assert(children_seq(u, path) == r + xs);
        assert(children_seq(cs, path) == r + cks);
        lemma_multiset_commutative(r, xs);
        lemma_multiset_commutative(r, cks);
        assert(children_seq(u, path).to_multiset().add(cks.to_multiset()) =~= children_seq(
            cs,
            path,
        ).to_multiset().add(xs.to_multiset()));
    } else {
        let d = cs.drop_last();
        assert(u.drop_last() =~= d.update(k, x));
        assert(u.last() == cs.last());
        assert(d[k] == cs[k]);
        lemma_children_update_ms(d, k, x, path);
        let r2 = children_seq(d.update(k, x), path);
        let r = children_seq(d, path);
        let l = node_seq(cs.last().1, path.push(cs.last().0@));
        assert(r2.to_multiset().add(cks.to_multiset()) == r.to_multiset().add(xs.to_multiset()));
        assert(children_seq(u, path) == r2 + l);
        assert(children_seq(cs, path) == r + l);
        lemma_multiset_commutative(r2, l);
        lemma_multiset_commutative(r, l);
        assert forall|v: TrieEntry|
            #![trigger children_seq(u, path).to_multiset().add(cks.to_multiset()).count(v)]
            children_seq(u, path).to_multiset().add(cks.to_multiset()).count(v) == children_seq(
                cs,
                path,
            ).to_multiset().add(xs.to_multiset()).count(v) by {
            assert(r2.to_multiset().add(cks.to_multiset()).count(v) == r.to_multiset().add(
                xs.to_multiset(),
            ).count(v));
        }
        assert(children_seq(u, path).to_multiset().add(cks.to_multiset()) =~= children_seq(
            cs,
            path,
        ).to_multiset().add(xs.to_multiset()));
    }
}

/// Taking `e` out of entries that held it once, at `j`, leaves the rest.
proof fn lemma_without_insert(t: Seq<TrieEntry>, j: int, e: TrieEntry)
    requires
        0 <= j <= t.len(),
        !t.contains(e),
    ensures
        without(t.insert(j, e), e) == t,
    decreases t.len(),
{
    reveal(Seq::filter);
    let u = t.insert(j, e);
    if t.len() == 0 {
        assert(u =~= seq![e]);
        assert(u.drop_last() =~= Seq::<TrieEntry>::empty());
        assert(without(u.drop_last(), e) =~= Seq::<TrieEntry>::empty());
    } else if j == t.len() {
        assert(u.drop_last() =~= t);
        assert(u.last() == e);
        lemma_without_none(t, e);
    } else {
        let d = t.drop_last();
        assert(!d.contains(e)) by {
            if d.contains(e) {
                let k = choose|k: int| 0 <= k < d.len() && d[k] == e;
                assert(t[k] == e);
            }
        }
        assert(u.drop_last() =~= d.insert(j, e));
        assert(u.last() == t.last());
        assert(t.last() != e) by {
            assert(t[t.len() - 1] == t.last());
        }
        lemma_without_insert(d, j, e);
        assert(without(u, e) =~= d.push(t.last()));
        assert(d.push(t.last()) =~= t);
    }
}

/// Taking out an entry that is not there changes nothing.
proof fn lemma_without_none(t: Seq<TrieEntry>, e: TrieEntry)
    requires
        !t.contains(e),
    ensures
        without(t, e) == t,
    decreases t.len(),
{
    reveal(Seq::filter);
    if t.len() > 0 {
        let d = t.drop_last();
        assert(!d.contains(e)) by {
            if d.contains(e) {
                let k = choose|k: int| 0 <= k < d.len() && d[k] == e;
                assert(t[k] == e);
            }
        }
        lemma_without_none(d, e);
        assert(t.last() != e) by {
            assert(t[t.len() - 1] == t.last());
        }
        assert(d.push(t.last()) =~= t);
    }
}

/// Replacing a child whose entries gained `e` at some place makes the
/// children's entries gain `e` at some place.
proof fn lemma_children_update_insert(
    cs: Seq<(String, TrieNode)>,
    k: int,
    x: (String, TrieNode),
    path: Seq<Seq<char>>,
    j: int,
    e: TrieEntry,
)
    requires
        0 <= k < cs.len(),
        x.0@ == cs[k].0@,
        0 <= j <= node_seq(cs[k].1, path.push(cs[k].0@)).len(),
        node_seq(x.1, path.push(x.0@)) == node_seq(cs[k].1, path.push(cs[k].0@)).insert(j, e),
    ensures
        exists|j2: int|
            0 <= j2 <= children_seq(cs, path).len() && children_seq(cs.update(k, x), path) == children_seq(
                cs,
                path,
            ).insert(j2, e),
    decreases cs.len(),
{
    let u = cs.update(k, x);
    let xs = node_seq(x.1, path.push(x.0@));
    let cks = node_seq(cs[k].1, path.push(cs[k].0@));
    if k == cs.len() - 1 {
        assert(u.drop_last() =~= cs.drop_last());
        assert(u.last() == x);
        let r = children_seq(cs.drop_last(), path);
        assert(children_seq(u, path) == r + xs);
        assert(children_seq(cs, path) == r + cks);
        assert(r + cks.insert(j, e) =~= (r + cks).insert(r.len() + j, e));
    } else {
        let d = cs.drop_last();
        assert(u.drop_last() =~= d.update(k, x));
        assert(u.last() == cs.last());
        assert(d[k] == cs[k]);
        lemma_children_update_insert(d, k, x, path, j, e);
        let r = children_seq(d, path);
        let j2 = choose|j2: int| 0 <= j2 <= r.len() && children_seq(d.update(k, x), path) == r.insert(j2, e);
        let l = node_seq(cs.last().1, path.push(cs.last().0@));
        assert(children_seq(u, path) == children_seq(d.update(k, x), path) + l);
        assert(children_seq(cs, path) == r + l);
        assert(r.insert(j2, e) + l =~= (r + l).insert(j2, e));
    }
}

#[verifier::rlimit(40)]
proof fn lemma_children_update_filter(
    cs: Seq<(String, TrieNode)>,
    k: int,
    x: (String, TrieNode),
    path: Seq<Seq<char>>,
    e: TrieEntry,
)
    requires
        0 <= k < cs.len(),
        x.0@ == cs[k].0@,
        node_seq(x.1, path.push(x.0@)) == without(node_seq(cs[k].1, path.push(cs[k].0@)), e),
        forall|j: int|
            0 <= j < cs.len() && j != k ==> !(#[trigger] node_seq(
                cs[j].1,
                path.push(cs[j].0@),
            )).contains(e),
    ensures
        children_seq(cs.update(k, x), path) == without(children_seq(cs, path), e),
    decreases cs.len(),
{
    let u = cs.update(k, x);
    let d = cs.drop_last();
    let f = other_than(e);
    let l = node_seq(cs.last().1, path.push(cs.last().0@));
    let r = children_seq(d, path);
    assert(children_seq(cs, path) == r + l);
    Seq::filter_distributes_over_add(r, l, f);
    if k == cs.len() - 1 {
        assert(u.drop_last() =~= d);
        assert(u.last() == x);
        assert(children_seq(u, path) == r + node_seq(x.1, path.push(x.0@)));
        lemma_children_no(d, path, e);
        lemma_filter_all(r, f);
        assert(l == node_seq(cs[k].1, path.push(cs[k].0@)));
    } else {
        assert(u.drop_last() =~= d.update(k, x));
        assert(u.last() == cs.last());
        assert(children_seq(u, path) == children_seq(d.update(k, x), path) + l);
        assert forall|j: int|
            0 <= j < d.len() && j != k implies !(#[trigger] node_seq(
                d[j].1,
                path.push(d[j].0@),
            )).contains(e) by {
            assert(d[j] == cs[j]);
        }
        assert(d[k] == cs[k]);
        lemma_children_update_filter(d, k, x, path, e);
        assert(!node_seq(cs[cs.len() - 1].1, path.push(cs[cs.len() - 1].0@)).contains(e));
        assert forall|i: int| 0 <= i < l.len() implies f(#[trigger] l[i]) by {
            assert(l.contains(l[i]));
        }
        lemma_filter_all(l, f);
    }
}

proof fn lemma_concat_contains(a: Seq<TrieEntry>, b: Seq<TrieEntry>, e: TrieEntry)
    ensures
        (a + b).contains(e) == (a.contains(e) || b.contains(e)),
{
    if a.contains(e) {
        let i = choose|i: int| 0 <= i < a.len() && a[i] == e;
        assert((a + b)[i] == e);
    }
    if b.contains(e) {
        let i = choose|i: int| 0 <= i < b.len() && b[i] == e;
        assert((a + b)[a.len() + i] == e);
    }
    if (a + b).contains(e) {
        let i = choose|i: int| 0 <= i < (a + b).len() && (a + b)[i] == e;
        if i < a.len() {
            assert(a[i] == e);
        } else {
            assert(b[i - a.len()] == e);
        }
    }
}

/// Only child `k` can hold `e`.
proof fn lemma_children_contains(
    cs: Seq<(String, TrieNode)>,
    k: int,
    path: Seq<Seq<char>>,
    e: TrieEntry,
)
    requires
        0 <= k < cs.len(),
        forall|j: int|
            0 <= j < cs.len() && j != k ==> !(#[trigger] node_seq(
                cs[j].1,
                path.push(cs[j].0@),
            )).contains(e),
    ensures
        children_seq(cs, path).contains(e) == node_seq(cs[k].1, path.push(cs[k].0@)).contains(e),
    decreases cs.len(),
{
    let d = cs.drop_last();
    let l = node_seq(cs.last().1, path.push(cs.last().0@));
    lemma_concat_contains(children_seq(d, path), l, e);
    if k == cs.len() - 1 {
        lemma_children_no(d, path, e);
    } else {
        assert forall|j: int|
            0 <= j < d.len() && j != k implies !(#[trigger] node_seq(
                d[j].1,
                path.push(d[j].0@),
            )).contains(e) by {
            assert(d[j] == cs[j]);
        }
        assert(d[k] == cs[k]);
        lemma_children_contains(d, k, path, e);
        assert(!node_seq(cs[cs.len() - 1].1, path.push(cs[cs.len() - 1].0@)).contains(e));
    }
}

/// No child other than those listed contains `e`: here, none of them.
proof fn lemma_children_no(cs: Seq<(String, TrieNode)>, path: Seq<Seq<char>>, e: TrieEntry)
    requires
        forall|j: int|
            0 <= j < cs.len() ==> !(#[trigger] node_seq(cs[j].1, path.push(cs[j].0@))).contains(e),
    ensures
        !children_seq(cs, path).contains(e),
    decreases cs.len(),
{
    if cs.len() > 0 {
        assert forall|j: int| 0 <= j < cs.drop_last().len() implies !(#[trigger] node_seq(
            cs.drop_last()[j].1,
            path.push(cs.drop_last()[j].0@),
        )).contains(e) by {
            assert(cs.drop_last()[j] == cs[j]);
        }
        lemma_children_no(cs.drop_last(), path, e);
        assert(!node_seq(cs[cs.len() - 1].1, path.push(cs[cs.len() - 1].0@)).contains(e));
    }
}

proof fn lemma_entries_filter(v: Seq<SubscriptionId>, path: Seq<Seq<char>>, multi: bool, id: SubscriptionId)
    ensures
        entries_of(v.filter(not_id(id)), path, multi) == without(
            entries_of(v, path, multi),
            TrieEntry { path, id, multi },
        ),
        entries_of(v, path, multi).contains(TrieEntry { path, id, multi }) == v.contains(id),
    decreases v.len(),
{
    reveal(Seq::filter);
    let e = TrieEntry { path, id, multi };
    if v.len() > 0 {
        lemma_entries_filter(v.drop_last(), path, multi, id);
        assert(entries_of(v, path, multi).drop_last() =~= entries_of(v.drop_last(), path, multi));
        assert(entries_of(v, path, multi).last() == TrieEntry { path, id: v.last(), multi });
        let fv = v.drop_last().filter(not_id(id));
        assert(entries_of(fv.push(v.last()), path, multi) =~= entries_of(fv, path, multi).push(
            TrieEntry { path, id: v.last(), multi },
        ));
        if v.contains(id) {
            let i = choose|i: int| 0 <= i < v.len() && v[i] == id;
            assert(entries_of(v, path, multi)[i] == e);
        }
        if entries_of(v, path, multi).contains(e) {
            let i = choose|i: int| 0 <= i < v.len() && entries_of(v, path, multi)[i] == e;
            assert(v[i] == id);
        }
    } else {
        assert(entries_of(v, path, multi) =~= Seq::<TrieEntry>::empty());
    }
}

proof fn lemma_without_contains(s: Seq<TrieEntry>, e: TrieEntry)
    ensures
        without(s, e).len() <= s.len(),
        s.contains(e) ==> without(s, e).len() < s.len(),
    decreases s.len(),
{
    reveal(Seq::filter);
    if s.len() > 0 {
        lemma_without_contains(s.drop_last(), e);
        if s.contains(e) && s.last() != e {
            let i = choose|i: int| 0 <= i < s.len() && s[i] == e;
            assert(s.drop_last()[i] == e);
        }
    }
}

/// Removes every occurrence of `id` from `v`; tells whether there was one.
pub(crate) fn remove_id(v: &mut Vec<SubscriptionId>, id: SubscriptionId) -> (removed: bool)
    ensures
        final(v)@ == old(v)@.filter(not_id(id)),
        removed == old(v)@.contains(id),
{
    let ghost old_v = v@;
    let mut kept: Vec<SubscriptionId> = Vec::new();
    let mut found = false;
    let mut i: usize = 0;
    while i < v.len()
        invariant
            v@ == old_v,
            i <= v@.len(),
            kept@ == v@.take(i as int).filter(not_id(id)),
            found == v@.take(i as int).contains(id),
        decreases v@.len() - i,
    {
        proof {
            reveal(Seq::filter);
            assert(v@.take(i + 1).drop_last() =~= v@.take(i as int));
            assert(v@.take(i + 1).last() == v@[i as int]);
            if v@.take(i as int).contains(id) {
                let j = choose|j: int| 0 <= j < i && #[trigger] v@.take(i as int)[j] == id;
                assert(v@.take(i + 1)[j] == id);
            }
            if v@.take(i + 1).contains(id) && v@[i as int] != id {
                let j = choose|j: int| 0 <= j < i + 1 && #[trigger] v@.take(i + 1)[j] == id;
                assert(v@.take(i as int)[j] == id);
            }
            if v@[i as int] == id {
                assert(v@.take(i + 1)[i as int] == id);
            }
        }
        if v[i] != id {
            kept.push(v[i]);
        } else {
            found = true;
        }
        i = i + 1;
    }
    assert(v@.take(v@.len() as int) =~= v@);
    *v = kept;
    found
}

/// Removes every occurrence of `id` from `v`; tells how many there were.
fn remove_id_count(v: &mut Vec<SubscriptionId>, id: SubscriptionId) -> (n: usize)
    ensures
        final(v)@ == old(v)@.filter(not_id(id)),
        n == old(v)@.len() - final(v)@.len(),
        (n > 0) == old(v)@.contains(id),
{
    let before = v.len();
    let found = remove_id(v, id);
    proof {
        old(v)@.lemma_filter_len(not_id(id));
        if found {
            let j = choose|j: int| 0 <= j < old(v)@.len() && old(v)@[j] == id;
            lemma_filter_drops(old(v)@, not_id(id), j);
        } else {
            assert forall|j: int| 0 <= j < old(v)@.len() implies not_id(id)(#[trigger] old(v)@[j]) by {
                assert(old(v)@.contains(old(v)@[j]));
            }
            lemma_filter_all(old(v)@, not_id(id));
        }
    }
    before - v.len()
}

/// Filtering out an element that is there makes a sequence shorter.
proof fn lemma_filter_drops<A>(s: Seq<A>, p: spec_fn(A) -> bool, j: int)
    requires
        0 <= j < s.len(),
        !p(s[j]),
    ensures
        s.filter(p).len() < s.len(),
    decreases s.len(),
{
    reveal(Seq::filter);
    s.drop_last().lemma_filter_len(p);
    if j < s.len() - 1 {
        lemma_filter_drops(s.drop_last(), p, j);
    }
}

/// The children's entries after child `k` was replaced by `x` under the
/// same key: as many as before, less child `k`'s, plus `x`'s.
proof fn lemma_children_len(cs: Seq<(String, TrieNode)>, k: int, x: (String, TrieNode), path: Seq<Seq<char>>)
    requires
        0 <= k < cs.len(),
        x.0@ == cs[k].0@,
    ensures
        children_seq(cs.update(k, x), path).len() + node_seq(cs[k].1, path.push(cs[k].0@)).len()
            == children_seq(cs, path).len() + node_seq(x.1, path.push(x.0@)).len(),
    decreases cs.len(),
{
    let cs2 = cs.update(k, x);
    if k == cs.len() - 1 {
        assert(cs2.drop_last() =~= cs.drop_last());
    } else {
        lemma_children_len(cs.drop_last(), k, x, path);
        assert(cs2.drop_last() =~= cs.drop_last().update(k, x));
        assert(cs2.last() == cs.last());
    }
}

/// The position of the child with the given key, if there is one.
fn find_child(cs: &Vec<(String, TrieNode)>, key: &String) -> (r: Option<usize>)
    ensures
        match r {
            Some(k) => k < cs@.len() && cs@[k as int].0@ == key@,
            None => forall|j: int| 0 <= j < cs@.len() ==> #[trigger] cs@[j].0@ != key@,
        },
{
    let mut i: usize = 0;
    while i < cs.len()
        invariant
            i <= cs@.len(),
            forall|j: int| 0 <= j < i ==> #[trigger] cs@[j].0@ != key@,
        decreases cs@.len() - i,
    {
        if cs[i].0 == *key {
            return Some(i);
        }
        i = i + 1;
    }
    None
}

impl TrieNode {
    fn new() -> (r: TrieNode)
        ensures
            node_seq(r, Seq::empty()) == Seq::<TrieEntry>::empty(),
            r.children@.len() == 0,
            r.multi_wildcard_subs@.len() == 0,
            r.exact_subs@.len() == 0,
            node_wf(r),
    {
        let r = TrieNode { children: Vec::new(), multi_wildcard_subs: Vec::new(), exact_subs: Vec::new() };
        assert(node_seq(r, Seq::empty()) =~= Seq::<TrieEntry>::empty());
        r
    }

    /// Appends to `results` the ids of the matching entries below this node.
    fn match_node(
        &self,
        tokens: &[String],
        index: usize,
        results: &mut MatchResult,
        Ghost(path): Ghost<Seq<Seq<char>>>,
    )
        requires
            index <= tokens@.len(),
            path.len() == index,
            prefix_match(path, views(tokens@)),
        ensures
            final(results)@ == old(results)@ + ids_of(matching(node_seq(*self, path), views(tokens@))),
        decreases tokens@.len() - index,
    {
        let ghost s = views(tokens@);
        let ghost a = entries_of(self.multi_wildcard_subs@, path, true);
        let ghost b = entries_of(self.exact_subs@, path, false);
        let ghost c = children_seq(self.children@, path);
        let ghost start = results@;
        proof {
            lemma_node_split(*self, path, s);
            lemma_entries_ids(self.multi_wildcard_subs@, path, true);
            lemma_entries_ids(self.exact_subs@, path, false);
            if index < tokens@.len() {
                lemma_filter_all(a, |e: TrieEntry| entry_matches(e, s));
                lemma_filter_none(b, |e: TrieEntry| entry_matches(e, s));
            } else {
                lemma_filter_none(a, |e: TrieEntry| entry_matches(e, s));
                lemma_filter_all(b, |e: TrieEntry| entry_matches(e, s));
                lemma_children_too_deep(self.children@, path, s);
            }
        }
        if self.multi_wildcard_subs.len() > 0 && index < tokens.len() {
            append_ids(results, &self.multi_wildcard_subs);
        }
        if index == tokens.len() {
            append_ids(results, &self.exact_subs);
            return;
        }
        let ghost mid = results@;
        assert(mid == start + ids_of(matching(a, s)) + ids_of(matching(b, s)));
        let mut i: usize = 0;
        while i < self.children.len()
            invariant
                i <= self.children@.len(),
                index < tokens@.len(),
                s == views(tokens@),
                path.len() == index,
                prefix_match(path, s),
                results@ == mid + ids_of(matching(children_seq(self.children@.take(i as int), path), s)),
            decreases self.children@.len() - i,
        {
            let ghost cs = self.children@;
            proof {
                lemma_children_step(cs, i as int, path, s);
            }
            let key = &self.children[i].0;
            let ghost p2 = path.push(key@);
            if *key == tokens[index] || is_star(key) {
                assert(prefix_match(p2, s)) by {
                    assert forall|j: int| 0 <= j < p2.len() implies #[trigger] p2[j] == s[j] || p2[j]
                        == seq!['*'] by {
                        if j < path.len() {
                            assert(p2[j] == path[j]);
                        }
                    }
                }
                self.children[i].1.match_node(tokens, index + 1, results, Ghost(p2));
            } else {
                proof {
                    assert(p2[index as int] == key@);
                    lemma_no_match(cs[i as int].1, p2, s);
                }
            }
            i = i + 1;
        }
        assert(self.children@.take(self.children@.len() as int) =~= self.children@);
    }
}


impl TrieNode {
    /// Stores `id` below this node, following `tokens` from position `i`.
    #[verifier::spinoff_prover]
    #[verifier::rlimit(60)]
    fn insert_node(
        &mut self,
        tokens: &[String],
        i: usize,
        id: SubscriptionId,
        multi: bool,
        Ghost(path): Ghost<Seq<Seq<char>>>,
    )
        requires
            i <= tokens@.len(),
            path == views(tokens@).take(i as int),
            multi && tokens@.len() > 0 ==> i < tokens@.len(),
            node_wf(*old(self)),
        ensures
            node_wf(*final(self)),
            node_seq(*final(self), path).to_multiset() == node_seq(*old(self), path).to_multiset().insert(
                insert_entry(views(tokens@), id, multi),
            ),
            exists|j: int|
                0 <= j <= node_seq(*old(self), path).len() && node_seq(*final(self), path) == node_seq(
                    *old(self),
                    path,
                ).insert(j, insert_entry(views(tokens@), id, multi)),
        decreases tokens@.len() - i,
    {
        let ghost tv = views(tokens@);
        let ghost e = insert_entry(tv, id, multi);
        let ghost a = entries_of(self.multi_wildcard_subs@, path, true);
        let ghost b = entries_of(self.exact_subs@, path, false);
        let ghost c = children_seq(self.children@, path);
        if multi && i < tokens.len() && i == tokens.len() - 1 {
            proof {
                assert(tv.drop_last() =~= tv.take(i as int));
                lemma_entries_push(self.multi_wildcard_subs@, id, path, true);
                lemma_ms_push_first(a, b, c, e);
                assert(a.push(e) + b + c =~= (a + b + c).insert(a.len() as int, e));
            }
            self.multi_wildcard_subs.push(id);
            proof {
                assert(node_seq(*old(self), path) == a + b + c);
                assert(node_seq(*self, path) == a.push(e) + b + c);
                assert(node_seq(*self, path) == node_seq(*old(self), path).insert(a.len() as int, e));
            }
        } else if i == tokens.len() {
            proof {
                assert(tv =~= tv.take(i as int));
                lemma_entries_push(self.exact_subs@, id, path, false);
                lemma_ms_push_second(a, b, c, e);
                assert(a + b.push(e) + c =~= (a + b + c).insert((a.len() + b.len()) as int, e));
            }
            self.exact_subs.push(id);
            proof {
                assert(node_seq(*old(self), path) == a + b + c);
                assert(node_seq(*self, path) == a + b.push(e) + c);
                assert(node_seq(*self, path) == node_seq(*old(self), path).insert((a.len() + b.len()) as int, e));
            }
        } else {
            let ghost key_v = tv[i as int];
            assert(tokens@[i as int]@ == key_v);
            let k: usize = match find_child(&self.children, &tokens[i]) {
                Some(k) => k,
                None => {
                    let ghost cs0 = self.children@;
                    let fresh = TrieNode::new();
                    assert(node_seq(fresh, path.push(key_v)) =~= Seq::<TrieEntry>::empty());
                    self.children.push((tokens[i].clone(), fresh));
                    proof {
                        let cs1 = self.children@;
                        assert(cs1.drop_last() =~= cs0);
                        assert(children_seq(cs1, path) =~= children_seq(cs0, path));
                        lemma_children_wf(cs0);
                        lemma_children_wf(cs1);
                        assert forall|j: int| 0 <= j < cs1.len() implies #[trigger] node_wf(
                            cs1[j].1,
                        ) by {
                            if j < cs0.len() {
                                assert(cs1[j] == cs0[j]);
                            }
                        }
                        assert(keys_unique(cs1));
                    }
                    self.children.len() - 1
                },
            };
            let ghost cs = self.children@;
            assert(node_seq(*self, path) =~= a + b + children_seq(cs, path));
            proof {
                lemma_children_wf(cs);
            }
            let (key, mut child) = self.children.remove(k);
            assert(child == cs[k as int].1 && key == cs[k as int].0);
            assert(node_wf(child));
            let ghost p2 = path.push(key_v);
            assert(p2 =~= tv.take(i + 1));
            child.insert_node(tokens, i + 1, id, multi, Ghost(p2));
            let ghost x = (key, child);
            self.children.insert(k, (key, child));
            proof {
                let cs2 = self.children@;
                assert(cs2 =~= cs.update(k as int, x));
                lemma_children_update_ms(cs, k as int, x, path);
                lemma_children_wf(cs2);
                assert forall|j: int| 0 <= j < cs2.len() implies #[trigger] node_wf(cs2[j].1) by {
                    if j != k {
                        assert(cs2[j] == cs[j]);
                    }
                }
                assert(keys_unique(cs2)) by {
                    assert forall|i1: int, j1: int| 0 <= i1 < j1 < cs2.len() implies #[trigger] cs2[i1].0@
                        != #[trigger] cs2[j1].0@ by {
                        assert(cs2[i1].0@ == cs[i1].0@);
                        assert(cs2[j1].0@ == cs[j1].0@);
                    }
                }
                broadcast use lemma_multiset_commutative;
                broadcast use vstd::multiset::group_multiset_axioms;

                let cn = children_seq(cs2, path);
                let co = children_seq(cs, path);
                let ck = node_seq(cs[k as int].1, path.push(cs[k as int].0@));
                let xn = node_seq(x.1, path.push(x.0@));
                assert(xn.to_multiset() == ck.to_multiset().insert(e));
                assert(cn.to_multiset().add(ck.to_multiset()) == co.to_multiset().add(xn.to_multiset()));
                assert forall|v: TrieEntry| #[trigger] cn.to_multiset().count(v) == co.to_multiset().insert(e).count(v) by {
                    assert(cn.to_multiset().add(ck.to_multiset()).count(v) == co.to_multiset().add(
                        xn.to_multiset(),
                    ).count(v));
                }
                assert(cn.to_multiset() =~= co.to_multiset().insert(e));
                assert(node_seq(*self, path) =~= a + b + cn);
                assert((a + b + cn).to_multiset() =~= (a + b + co).to_multiset().insert(e));
                let jc = choose|jc: int| 0 <= jc <= ck.len() && xn == ck.insert(jc, e);
                lemma_children_update_insert(cs, k as int, x, path, jc, e);
                let j2 = choose|j2: int| 0 <= j2 <= co.len() && cn == co.insert(j2, e);
                assert(a + b + co.insert(j2, e) =~= (a + b + co).insert(a.len() + b.len() + j2, e));
            }
        }
    }

    /// Removes every copy of the entry that `insert(tokens, id, multi)`
    /// would store, following `tokens` from position `i`.
    fn remove_node(
        &mut self,
        tokens: &[String],
        i: usize,
        id: SubscriptionId,
        multi: bool,
        Ghost(path): Ghost<Seq<Seq<char>>>,
    ) -> (removed: usize)
        requires
            i <= tokens@.len(),
            path == views(tokens@).take(i as int),
            multi && tokens@.len() > 0 ==> i < tokens@.len(),
            node_wf(*old(self)),
        ensures
            node_wf(*final(self)),
            node_seq(*final(self), path) == without(
                node_seq(*old(self), path),
                insert_entry(views(tokens@), id, multi),
            ),
            node_seq(*final(self), path).len() + removed == node_seq(*old(self), path).len(),
        decreases tokens@.len() - i,
    {
        let ghost tv = views(tokens@);
        let ghost e = insert_entry(tv, id, multi);
        let ghost a = entries_of(self.multi_wildcard_subs@, path, true);
        let ghost b = entries_of(self.exact_subs@, path, false);
        let ghost c = children_seq(self.children@, path);
        let ghost f = other_than(e);
        proof {
            Seq::filter_distributes_over_add(a + b, c, f);
            Seq::filter_distributes_over_add(a, b, f);
            lemma_concat_contains(a + b, c, e);
            lemma_concat_contains(a, b, e);
            lemma_children_paths(self.children@, path);
        }
        if multi && i < tokens.len() && i == tokens.len() - 1 {
            proof {
                assert(tv.drop_last() =~= tv.take(i as int));
                lemma_entries_filter(self.multi_wildcard_subs@, path, true, id);
                assert forall|j: int| 0 <= j < b.len() implies f(#[trigger] b[j]) by {}
                lemma_filter_all(b, f);
                assert forall|j: int| 0 <= j < c.len() implies f(#[trigger] c[j]) by {
                    assert(extends(c[j].path, path));
                }
                lemma_filter_all(c, f);
                if b.contains(e) {
                    let j = choose|j: int| 0 <= j < b.len() && b[j] == e;
                    assert(f(b[j]));
                }
                if c.contains(e) {
                    let j = choose|j: int| 0 <= j < c.len() && c[j] == e;
                    assert(f(c[j]));
                }
            }
            let r = remove_id_count(&mut self.multi_wildcard_subs, id);
            assert(node_seq(*self, path) =~= without(a, e) + b + c);
            r
        } else if i == tokens.len() {
            proof {
                assert(tv =~= tv.take(i as int));
                lemma_entries_filter(self.exact_subs@, path, false, id);
                assert forall|j: int| 0 <= j < a.len() implies f(#[trigger] a[j]) by {}
                lemma_filter_all(a, f);
                assert forall|j: int| 0 <= j < c.len() implies f(#[trigger] c[j]) by {
                    assert(extends(c[j].path, path));
                }
                lemma_filter_all(c, f);
                if a.contains(e) {
                    let j = choose|j: int| 0 <= j < a.len() && a[j] == e;
                    assert(f(a[j]));
                }
                if c.contains(e) {
                    let j = choose|j: int| 0 <= j < c.len() && c[j] == e;
                    assert(f(c[j]));
                }
            }
            let r = remove_id_count(&mut self.exact_subs, id);
            assert(node_seq(*self, path) =~= a + without(b, e) + c);
            r
        } else {
            let ghost key_v = tv[i as int];
            assert(tokens@[i as int]@ == key_v);
            assert(e.path.len() > i && e.path[i as int] == key_v) by {
                if multi && tokens@.len() > 0 {
                    assert(e.path == tv.drop_last());
                }
            }
            proof {
                assert forall|j: int| 0 <= j < a.len() implies f(#[trigger] a[j]) by {}
                lemma_filter_all(a, f);
                assert forall|j: int| 0 <= j < b.len() implies f(#[trigger] b[j]) by {}
                lemma_filter_all(b, f);
                if a.contains(e) {
                    let j = choose|j: int| 0 <= j < a.len() && a[j] == e;
                    assert(f(a[j]));
                }
                if b.contains(e) {
                    let j = choose|j: int| 0 <= j < b.len() && b[j] == e;
                    assert(f(b[j]));
                }
            }
            let ghost cs = self.children@;
            proof {
                lemma_children_wf(cs);
                // Entries below a child whose key differs from the next token are not `e`.
                assert forall|j: int|
                    0 <= j < cs.len() && cs[j].0@ != key_v implies !(#[trigger] node_seq(
                        cs[j].1,
                        path.push(cs[j].0@),
                    )).contains(e) by {
                    let q = path.push(cs[j].0@);
                    lemma_node_paths(cs[j].1, q);
                    if node_seq(cs[j].1, q).contains(e) {
                        let m = choose|m: int|
                            0 <= m < node_seq(cs[j].1, q).len() && node_seq(cs[j].1, q)[m] == e;
                        assert(extends(node_seq(cs[j].1, q)[m].path, q));
                        assert(e.path.subrange(0, q.len() as int)[i as int] == e.path[i as int]);
                    }
                }
            }
            match find_child(&self.children, &tokens[i]) {
                None => {
                    proof {
                        lemma_children_no(cs, path, e);
                        let cs_ = cs;
                        assert forall|j: int| 0 <= j < c.len() implies f(#[trigger] c[j]) by {
                            assert(c.contains(c[j]));
                        }
                        lemma_filter_all(c, f);
                    }
                    0
                },
                Some(k) => {
                    assert(node_seq(*self, path) =~= a + b + children_seq(cs, path));
                    let (key, mut child) = self.children.remove(k);
                    assert(child == cs[k as int].1 && key == cs[k as int].0);
                    assert(node_wf(child));
                    let ghost p2 = path.push(key_v);
                    assert(p2 =~= tv.take(i + 1));
                    let r = child.remove_node(tokens, i + 1, id, multi, Ghost(p2));
                    let ghost x = (key, child);
                    self.children.insert(k, (key, child));
                    proof {
                        let cs2 = self.children@;
                        assert(cs2 =~= cs.update(k as int, x));
                        assert forall|j: int|
                            0 <= j < cs.len() && j != k implies !(#[trigger] node_seq(
                                cs[j].1,
                                path.push(cs[j].0@),
                            )).contains(e) by {
                            assert(cs[j].0@ != cs[k as int].0@);
                        }
                        lemma_children_update_filter(cs, k as int, x, path, e);
                        lemma_children_contains(cs, k as int, path, e);
                        lemma_children_len(cs, k as int, x, path);
                        lemma_children_wf(cs2);
                        assert forall|j: int| 0 <= j < cs2.len() implies #[trigger] node_wf(
                            cs2[j].1,
                        ) by {
                            if j != k {
                                assert(cs2[j] == cs[j]);
                            }
                        }
                        assert(keys_unique(cs2)) by {
                            assert forall|i1: int, j1: int|
                                0 <= i1 < j1 < cs2.len() implies #[trigger] cs2[i1].0@
                                != #[trigger] cs2[j1].0@ by {
                                assert(cs2[i1].0@ == cs[i1].0@);
                                assert(cs2[j1].0@ == cs[j1].0@);
                            }
                        }
                        assert(node_seq(*self, path) =~= a + b + children_seq(cs2, path));
                    }
                    r
                },
            }
        }
    }
}

/// The routing table for wildcard subscriptions.
pub struct SubjectTrie {
    root: TrieNode,
    subscriber_count: usize,
}

/// The ids that a match returns, in order; up to eight are held without a
/// heap allocation.
#[verifier::external_body]
#[derive(Debug, PartialEq, Eq)]
pub struct MatchResult {
    ids: SmallVec<[SubscriptionId; 8]>,
}

/// The ids a match result holds, in order.
pub uninterp spec fn match_ids(m: MatchResult) -> Seq<SubscriptionId>;

impl View for MatchResult {
    type V = Seq<SubscriptionId>;

    open spec fn view(&self) -> Seq<SubscriptionId> {
        match_ids(*self)
    }
}

impl MatchResult {
    /// `SmallVec::new`: holds no id.
    #[verifier::external_body]
    pub fn new() -> (r: Self)
        ensures
            match_ids(r) == Seq::<SubscriptionId>::empty(),
    {
        MatchResult { ids: SmallVec::new() }
    }

    /// `SmallVec::from_vec`: holds the ids of `v`, in order.
    #[verifier::external_body]
    pub fn from_vec(v: Vec<SubscriptionId>) -> (r: Self)
        ensures
            match_ids(r) == v@,
    {
        MatchResult { ids: SmallVec::from_vec(v) }
    }

    /// `SmallVec::push`: `id` is added at the end.
    #[verifier::external_body]
    pub fn push(&mut self, id: SubscriptionId)
        ensures
            match_ids(*final(self)) == match_ids(*old(self)).push(id),
    {
        self.ids.push(id);
    }

    /// `SmallVec::len`: how many ids are held.
    #[verifier::external_body]
    pub fn len(&self) -> (r: usize)
        ensures
            r == match_ids(*self).len(),
    {
        self.ids.len()
    }

    /// `SmallVec::is_empty`: whether no id is held.
    #[verifier::external_body]
    pub fn is_empty(&self) -> (r: bool)
        ensures
            r == (match_ids(*self).len() == 0),
    {
        self.ids.is_empty()
    }

    /// Indexing a `SmallVec`: the id at position `i`.
    #[verifier::external_body]
    pub fn get(&self, i: usize) -> (r: SubscriptionId)
        requires
            i < match_ids(*self).len(),
        ensures
            r == match_ids(*self)[i as int],
    {
        self.ids[i]
    }

    /// `SmallVec::into_vec`: the ids, in order, in a `Vec`.
    #[verifier::external_body]
    pub fn into_vec(self) -> (r: Vec<SubscriptionId>)
        ensures
            r@ == match_ids(self),
    {
        self.ids.into_vec()
    }

    /// Whether `id` is among the ids.
    pub fn contains(&self, id: &SubscriptionId) -> (r: bool)
        ensures
            r == self@.contains(*id),
    {
        let mut i: usize = 0;
        while i < self.len()
            invariant
                i <= self@.len(),
                forall|j: int| 0 <= j < i ==> self@[j] != *id,
            decreases self@.len() - i,
        {
            if self.get(i) == *id {
                return true;
            }
            i = i + 1;
        }
        false
    }
}

impl SubjectTrie {
    /// The subscriptions stored, in the trie's own order.
    pub closed spec fn entries(&self) -> Seq<TrieEntry> {
        node_seq(self.root, Seq::empty())
    }

    /// The number of subscriptions counted in.
    pub closed spec fn count(&self) -> usize {
        self.subscriber_count
    }

    /// The trie is well formed: no node has two children with the same key,
    /// and the counter is the number of stored subscriptions.
    pub closed spec fn wf(&self) -> bool {
        node_wf(self.root) && self.entries().len() == self.subscriber_count
    }

    /// An empty trie.
    pub fn new() -> (r: Self)
        ensures
            r.wf(),
            r.entries() == Seq::<TrieEntry>::empty(),
            r.count() == 0,
    {
        SubjectTrie { root: TrieNode::new(), subscriber_count: 0 }
    }

    /// The number of subscriptions counted in.
    pub fn subscriber_count(&self) -> (r: usize)
        ensures
            r == self.count(),
    {
        self.subscriber_count
    }

    /// True when no subscription remains.
    pub fn is_empty(&self) -> (r: bool)
        requires
            self.wf(),
        ensures
            r == (self.count() == 0),
            r == (self.entries().len() == 0),
    {
        self.subscriber_count == 0
    }

    /// Stores subscription `sub_id` under the pattern tokens `tokens` (where
    /// `*` and `>` stand for the wildcards); `has_multi_wildcard` says that the
    /// last token is `>`.
    pub fn insert(&mut self, tokens: &[String], sub_id: SubscriptionId, has_multi_wildcard: bool)
        requires
            old(self).wf(),
            old(self).count() < usize::MAX,
        ensures
            final(self).wf(),
            final(self).entries().to_multiset() == old(self).entries().to_multiset().insert(
                insert_entry(views(tokens@), sub_id, has_multi_wildcard),
            ),
            final(self).count() == old(self).count() + 1,
            exists|j: int|
                0 <= j <= old(self).entries().len() && final(self).entries() == old(self).entries().insert(
                    j,
                    insert_entry(views(tokens@), sub_id, has_multi_wildcard),
                ),
    {
        assert(views(tokens@).take(0) =~= Seq::<Seq<char>>::empty());
        let ghost before = self.entries();
        self.root.insert_node(tokens, 0, sub_id, has_multi_wildcard, Ghost(Seq::empty()));
        self.subscriber_count = self.subscriber_count + 1;
        proof {
            broadcast use vstd::multiset::group_multiset_properties;

            assert(self.entries().to_multiset().len() == self.entries().len());
            assert(before.to_multiset().len() == before.len());
        }
    }

    /// A trie that holds no entry matches nothing: every subject's match is
    /// empty, so `is_empty` holding means no subject finds a subscription.
    pub proof fn lemma_empty_matches_nothing(t: Self, s: Seq<Seq<char>>)
        requires
            t.entries().len() == 0,
        ensures
            ids_of(matching(t.entries(), s)) == Seq::<SubscriptionId>::empty(),
    {
        reveal(Seq::filter);
        assert(ids_of(matching(t.entries(), s)) =~= Seq::<SubscriptionId>::empty());
    }

    /// Adding an entry that the trie does not hold and then removing it
    /// gives back the entries as they were, in their order: every subject
    /// matches the same subscriptions, in the same order, as before.
    pub proof fn lemma_insert_then_remove(t0: Self, t1: Self, t2: Self, e: TrieEntry)
        requires
            !t0.entries().contains(e),
            exists|j: int| 0 <= j <= t0.entries().len() && t1.entries() == t0.entries().insert(j, e),
            t2.entries() == without(t1.entries(), e),
        ensures
            t2.entries() == t0.entries(),
            forall|s: Seq<Seq<char>>| #[trigger] matching(t2.entries(), s) == matching(t0.entries(), s),
    {
        let j = choose|j: int| 0 <= j <= t0.entries().len() && t1.entries() == t0.entries().insert(j, e);
        lemma_without_insert(t0.entries(), j, e);
    }

    /// Removes subscription `sub_id` stored under `tokens`, if it is there.
    pub fn remove(&mut self, tokens: &[String], sub_id: SubscriptionId, has_multi_wildcard: bool)
        requires
            old(self).wf(),
        ensures
            final(self).wf(),
            final(self).entries() == without(
                old(self).entries(),
                insert_entry(views(tokens@), sub_id, has_multi_wildcard),
            ),
            final(self).count() == final(self).entries().len(),
            final(self).count() <= old(self).count(),
            old(self).entries().contains(insert_entry(views(tokens@), sub_id, has_multi_wildcard))
                ==> final(self).count() < old(self).count(),
            !old(self).entries().contains(insert_entry(views(tokens@), sub_id, has_multi_wildcard))
                ==> final(self).count() == old(self).count(),
    {
        assert(views(tokens@).take(0) =~= Seq::<Seq<char>>::empty());
        let ghost before = self.entries();
        let removed = self.root.remove_node(
            tokens,
            0,
            sub_id,
            has_multi_wildcard,
            Ghost(Seq::empty()),
        );
        proof {
            let e = insert_entry(views(tokens@), sub_id, has_multi_wildcard);
            lemma_without_contains(before, e);
            if before.contains(e) {
                let j = choose|j: int| 0 <= j < before.len() && before[j] == e;
                lemma_filter_drops(before, other_than(e), j);
            } else {
                assert forall|j: int| 0 <= j < before.len() implies other_than(e)(#[trigger] before[j]) by {
                    assert(before.contains(before[j]));
                }
                lemma_filter_all(before, other_than(e));
            }
        }
        self.subscriber_count = self.subscriber_count - removed;
    }

    /// The ids of the stored subscriptions that match the subject, in the
    /// trie's order.
    pub fn match_subject(&self, subject: &Subject) -> (r: MatchResult)
        requires
            self.wf(),
        ensures
            r@ == ids_of(matching(self.entries(), subject@.tokens)),
    {
        let tokens = subject.tokens();
        let mut results = MatchResult::new();
        self.root.match_node(tokens, 0, &mut results, Ghost(Seq::empty()));
        assert(results@ =~= Seq::<SubscriptionId>::empty() + ids_of(
            matching(self.entries(), subject@.tokens),
        ));
        results
    }
}

} // verus!
