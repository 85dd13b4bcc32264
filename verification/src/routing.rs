//! The routing engine: exact subscriptions in a concurrent map keyed by the
//! pattern text, wildcard subscriptions in the token trie.

use dashmap::DashMap;
use vstd::prelude::*;

use crate::id::SubscriptionId;
use crate::subject::{Subject, SubjectView, subject_wf, valid_subject};
use crate::subject_pattern::{
    PTok, PatternToken, SubjectPattern, gt_only_last, pattern_matches, pattern_wf, tok_of, tok_views,
    toks_of, valid_pattern,
};
use crate::text::{lemma_split_injective, split_on, views};
use crate::trie::{
    MatchResult, SubjectTrie, TrieEntry, entry_matches, ids_of, insert_entry, matching, other_than,
    prefix_match, remove_id, without, not_id,
};

verus! {

#[verifier::external_type_specification]
#[verifier::external_body]
#[verifier::reject_recursive_types(K)]
#[verifier::reject_recursive_types(V)]
#[verifier::reject_recursive_types(S)]
pub struct ExDashMap<K, V, S>(DashMap<K, V, S>);

/// The map of exact subscriptions: pattern text to subscription ids.
pub type ExactRoutes = DashMap<String, Vec<SubscriptionId>>;

/// The contents of the exact-subscription map: pattern text to the ids
/// subscribed under it, in the order they were added.
pub uninterp spec fn exact_routes(m: ExactRoutes) -> Map<Seq<char>, Seq<SubscriptionId>>;

/// `DashMap::new`: an empty map.
#[verifier::external_body]
fn routes_new() -> (routes: ExactRoutes)
    ensures
        exact_routes(routes) =~= Map::empty(),
{
    DashMap::new()
}

/// `DashMap::get`: the value stored under `key`, copied out of the guard, or
/// nothing when the key is absent.
#[verifier::external_body]
fn routes_get(m: &ExactRoutes, key: &str) -> (r: Option<Vec<SubscriptionId>>)
    ensures
        match r {
            Some(v) => exact_routes(*m).dom().contains(key@) && v@ == exact_routes(*m)[key@],
            None => !exact_routes(*m).dom().contains(key@),
        },
{
    match m.get(key) {
        Some(entry) => Some(entry.value().clone()),
        None => None,
    }
}

/// `DashMap::insert`: stores `value` under `key`, replacing any earlier value.
#[verifier::external_body]
fn routes_insert(m: &mut ExactRoutes, key: String, value: Vec<SubscriptionId>)
    ensures
        exact_routes(*final(m)) == exact_routes(*old(m)).insert(key@, value@),
{
    m.insert(key, value);
}

/// The ids stored under `key`, or none.
pub open spec fn exact_ids(e: Map<Seq<char>, Seq<SubscriptionId>>, key: Seq<char>) -> Seq<
    SubscriptionId,
> {
    if e.dom().contains(key) {
        e[key]
    } else {
        Seq::empty()
    }
}

/// Some token of the pattern text is a wildcard.
pub open spec fn has_wild(raw: Seq<char>) -> bool {
    exists|i: int|
        0 <= i < split_on(raw, '.').len() && (#[trigger] split_on(raw, '.')[i] == seq!['*']
            || split_on(raw, '.')[i] == seq!['>'])
}

/// Some token of the pattern text is `>`.
pub open spec fn has_gt(raw: Seq<char>) -> bool {
    exists|i: int| 0 <= i < split_on(raw, '.').len() && #[trigger] split_on(raw, '.')[i] == seq!['>']
}

/// The trie entry under which the wildcard pattern `raw` is stored for `id`.
pub open spec fn route_entry(raw: Seq<char>, id: SubscriptionId) -> TrieEntry {
    insert_entry(split_on(raw, '.'), id, has_gt(raw))
}

/// Whether the pattern text `raw` matches the subject tokens `s`.
pub open spec fn raw_matches(raw: Seq<char>, s: Seq<Seq<char>>) -> bool {
    pattern_matches(toks_of(split_on(raw, '.')), s)
}

/// One pattern token accepts one subject token.
pub open spec fn tok_accepts(p: PTok, t: Seq<char>) -> bool {
    match p {
        PTok::Lit(l) => l == t,
        _ => true,
    }
}

proof fn lemma_pm_nogt(p: Seq<PTok>, s: Seq<Seq<char>>)
    requires
        forall|i: int| 0 <= i < p.len() ==> !(#[trigger] p[i] is Gt),
    ensures
        pattern_matches(p, s) <==> (s.len() == p.len() && forall|i: int|
            0 <= i < p.len() ==> #[trigger] tok_accepts(p[i], s[i])),
    decreases p.len(),
{
    if p.len() > 0 && s.len() > 0 {
        let p1 = p.drop_first();
        let s1 = s.drop_first();
        assert forall|i: int| 0 <= i < p1.len() implies !(#[trigger] p1[i] is Gt) by {
            assert(p1[i] == p[i + 1]);
        }
        lemma_pm_nogt(p1, s1);
        assert(!(p[0] is Gt));
        if s.len() == p.len() && forall|i: int| 0 <= i < p.len() ==> #[trigger] tok_accepts(p[i], s[i]) {
            assert(tok_accepts(p[0], s[0]));
            assert forall|i: int| 0 <= i < p1.len() implies #[trigger] tok_accepts(p1[i], s1[i]) by {
                assert(tok_accepts(p[i + 1], s[i + 1]));
            }
        }
        if pattern_matches(p, s) {
            assert forall|i: int| 0 <= i < p.len() implies #[trigger] tok_accepts(p[i], s[i]) by {
                if i > 0 {
                    assert(tok_accepts(p1[i - 1], s1[i - 1]));
                }
            }
        }
    }
}

proof fn lemma_pm_gt(p: Seq<PTok>, s: Seq<Seq<char>>)
    requires
        p.len() >= 1,
        p.last() is Gt,
        forall|i: int| 0 <= i < p.len() - 1 ==> !(#[trigger] p[i] is Gt),
    ensures
        pattern_matches(p, s) <==> (s.len() >= p.len() && forall|i: int|
            0 <= i < p.len() - 1 ==> #[trigger] tok_accepts(p[i], s[i])),
    decreases p.len(),
{
    if p.len() > 1 && s.len() > 0 {
        let p1 = p.drop_first();
        let s1 = s.drop_first();
        assert forall|i: int| 0 <= i < p1.len() - 1 implies !(#[trigger] p1[i] is Gt) by {
            assert(p1[i] == p[i + 1]);
        }
        assert(p1.last() == p.last());
        lemma_pm_gt(p1, s1);
        assert(!(p[0] is Gt));
        if s.len() >= p.len() && forall|i: int|
            0 <= i < p.len() - 1 ==> #[trigger] tok_accepts(p[i], s[i]) {
            assert(tok_accepts(p[0], s[0]));
            assert forall|i: int| 0 <= i < p1.len() - 1 implies #[trigger] tok_accepts(
                p1[i],
                s1[i],
            ) by {
                assert(tok_accepts(p[i + 1], s[i + 1]));
            }
        }
        if pattern_matches(p, s) {
            assert forall|i: int| 0 <= i < p.len() - 1 implies #[trigger] tok_accepts(p[i], s[i]) by {
                if i > 0 {
                    assert(tok_accepts(p1[i - 1], s1[i - 1]));
                }
            }
        }
    } else if p.len() == 1 {
        assert(p[0] is Gt);
    }
}

/// A `>` in a valid pattern is its last token.
proof fn lemma_gt_last(raw: Seq<char>)
    requires
        valid_pattern(raw),
        has_gt(raw),
    ensures
        split_on(raw, '.').last() == seq!['>'],
        split_on(raw, '.').len() >= 1,
{
    let t = split_on(raw, '.');
    let i = choose|i: int| 0 <= i < t.len() && #[trigger] t[i] == seq!['>'];
    assert(gt_only_last(t));
    if i < t.len() - 1 {
        assert(t[i] != seq!['>']);
    }
}

/// The stored entry of a wildcard pattern matches a subject exactly when the
/// pattern does.
pub proof fn lemma_route_entry_matches(raw: Seq<char>, id: SubscriptionId, s: Seq<Seq<char>>)
    requires
        valid_pattern(raw),
    ensures
        entry_matches(route_entry(raw, id), s) == raw_matches(raw, s),
{
    let t = split_on(raw, '.');
    let p = toks_of(t);
    assert(p.len() == t.len());
    assert(seq!['>'] != seq!['*']) by {
        assert(seq!['>'][0] != seq!['*'][0]);
    }
    assert forall|i: int| 0 <= i < t.len() && t[i] != seq!['>'] implies (#[trigger] t[i] == s[i] || t[i]
        == seq!['*']) == tok_accepts(p[i], s[i]) by {
        assert(p[i] == tok_of(t[i]));
        if t[i] != seq!['*'] && t[i] != seq!['>'] {
            assert(p[i] == PTok::Lit(t[i]));
        }
    }
    if has_gt(raw) {
        lemma_gt_last(raw);
        assert(p.last() == tok_of(t.last()));
        assert forall|i: int| 0 <= i < p.len() - 1 implies !(#[trigger] p[i] is Gt) by {
            assert(gt_only_last(t));
            assert(p[i] == tok_of(t[i]));
        }
        lemma_pm_gt(p, s);
        let e = route_entry(raw, id);
        assert(e.path == t.drop_last());
        if entry_matches(e, s) {
            assert forall|i: int| 0 <= i < p.len() - 1 implies #[trigger] tok_accepts(p[i], s[i]) by {
                assert(e.path[i] == t[i]);
                assert(t[i] != seq!['>']);
                assert(e.path[i] == s[i] || e.path[i] == seq!['*']);
            }
        }
        if raw_matches(raw, s) {
            assert forall|i: int| 0 <= i < e.path.len() implies #[trigger] e.path[i] == s[i]
                || e.path[i] == seq!['*'] by {
                assert(e.path[i] == t[i]);
                assert(t[i] != seq!['>']);
                assert(tok_accepts(p[i], s[i]));
            }
        }
    } else {
        assert forall|i: int| 0 <= i < p.len() implies !(#[trigger] p[i] is Gt) by {
            assert(p[i] == tok_of(t[i]));
            assert(t[i] != seq!['>']);
        }
        lemma_pm_nogt(p, s);
        let e = route_entry(raw, id);
        assert(e.path == t);
        if entry_matches(e, s) {
            assert forall|i: int| 0 <= i < p.len() implies #[trigger] tok_accepts(p[i], s[i]) by {
                assert(t[i] != seq!['>']);
                assert(e.path[i] == s[i] || e.path[i] == seq!['*']);
            }
        }
        if raw_matches(raw, s) {
            assert forall|i: int| 0 <= i < e.path.len() implies #[trigger] e.path[i] == s[i]
                || e.path[i] == seq!['*'] by {
                assert(t[i] != seq!['>']);
                assert(tok_accepts(p[i], s[i]));
            }
        }
    }
}

/// A pattern without wildcards matches a subject exactly when the texts are equal.
pub proof fn lemma_plain_matches(raw: Seq<char>, s: SubjectView)
    requires
        valid_pattern(raw),
        !has_wild(raw),
        subject_wf(s),
    ensures
        raw_matches(raw, s.tokens) == (raw == s.raw),
{
    let t = split_on(raw, '.');
    let p = toks_of(t);
    assert forall|i: int| 0 <= i < p.len() implies !(#[trigger] p[i] is Gt) && p[i] == PTok::Lit(t[i]) by {
        assert(p[i] == tok_of(t[i]));
        assert(t[i] != seq!['>'] && t[i] != seq!['*']);
    }
    lemma_pm_nogt(p, s.tokens);
    if raw_matches(raw, s.tokens) {
        assert forall|i: int| 0 <= i < t.len() implies t[i] == #[trigger] s.tokens[i] by {
            assert(tok_accepts(p[i], s.tokens[i]));
        }
        assert(t =~= s.tokens);
        lemma_split_injective(raw, s.raw, '.');
    }
    if raw == s.raw {
        assert forall|i: int| 0 <= i < p.len() implies #[trigger] tok_accepts(p[i], s.tokens[i]) by {}
    }
}

/// Distinct wildcard subscriptions are stored under distinct entries.
proof fn lemma_route_entry_injective(r1: Seq<char>, i1: SubscriptionId, r2: Seq<char>, i2: SubscriptionId)
    requires
        valid_pattern(r1),
        valid_pattern(r2),
        route_entry(r1, i1) == route_entry(r2, i2),
    ensures
        r1 == r2 && i1 == i2,
{
    let t1 = split_on(r1, '.');
    let t2 = split_on(r2, '.');
    if has_gt(r1) {
        lemma_gt_last(r1);
        lemma_gt_last(r2);
        assert(t1 =~= t1.drop_last().push(seq!['>']));
        assert(t2 =~= t2.drop_last().push(seq!['>']));
    } else {
        if has_gt(r2) {
            lemma_gt_last(r2);
        }
    }
    lemma_split_injective(r1, r2, '.');
}

/// The text tokens under which a pattern is stored in the trie: its own
/// tokens, with `*` and `>` for the wildcards.
fn route_tokens(pattern: &SubjectPattern) -> (r: Vec<String>)
    ensures
        views(r@) == split_on(pattern@.raw, '.'),
        pattern_wf(pattern@),
{
    let toks = pattern.tokens();
    let ghost t = split_on(pattern@.raw, '.');
    assert(tok_views(toks@).len() == toks@.len() && toks_of(t).len() == t.len());
    let mut r: Vec<String> = Vec::new();
    let mut i: usize = 0;
    while i < toks.len()
        invariant
            i <= toks@.len(),
            pattern_wf(pattern@),
            tok_views(toks@) == toks_of(t),
            toks@.len() == t.len(),
            t == split_on(pattern@.raw, '.'),
            r@.len() == i,
            forall|j: int| 0 <= j < i ==> #[trigger] r@[j]@ == t[j],
        decreases toks@.len() - i,
    {
        assert(toks_of(t)[i as int] == tok_of(t[i as int]));
        assert(tok_views(toks@)[i as int] == toks@[i as int]@);
        let s = match &toks[i] {
            PatternToken::Literal(l) => l.clone(),
            PatternToken::SingleWildcard => {
                let s = "*".to_owned();
                proof {
                    reveal_strlit("*");
                }
                s
            },
            PatternToken::MultiWildcard => {
                let s = ">".to_owned();
                proof {
                    reveal_strlit(">");
                }
                s
            },
        };
        assert(s@ == t[i as int]);
        r.push(s);
        i = i + 1;
    }
    assert(views(r@) =~= t);
    r
}

/// Whether the pattern has a wildcard, and whether it has `>`.
fn wildcard_kind(pattern: &SubjectPattern) -> (r: (bool, bool))
    ensures
        r.0 == has_wild(pattern@.raw),
        r.1 == has_gt(pattern@.raw),
        pattern_wf(pattern@),
{
    let toks = pattern.tokens();
    let ghost t = split_on(pattern@.raw, '.');
    assert(tok_views(toks@).len() == toks@.len() && toks_of(t).len() == t.len());
    let mut wild = false;
    let mut gt = false;
    let mut i: usize = 0;
    while i < toks.len()
        invariant
            i <= toks@.len(),
            pattern_wf(pattern@),
            tok_views(toks@) == toks_of(t),
            toks@.len() == t.len(),
            t == split_on(pattern@.raw, '.'),
            wild == exists|j: int| 0 <= j < i && (#[trigger] t[j] == seq!['*'] || t[j] == seq!['>']),
            gt == exists|j: int| 0 <= j < i && #[trigger] t[j] == seq!['>'],
        decreases toks@.len() - i,
    {
        assert(toks_of(t)[i as int] == tok_of(t[i as int]));
        assert(tok_views(toks@)[i as int] == toks@[i as int]@);
        assert(seq!['>'] != seq!['*']) by {
            assert(seq!['>'][0] != seq!['*'][0]);
        }
        match &toks[i] {
            PatternToken::Literal(_) => {},
            PatternToken::SingleWildcard => {
                wild = true;
            },
            PatternToken::MultiWildcard => {
                wild = true;
                gt = true;
            },
        }
        i = i + 1;
    }
    (wild, gt)
}

/// Routes published subjects to the subscriptions whose patterns match them.
pub struct RoutingEngine {
    exact: ExactRoutes,
    wildcard_trie: SubjectTrie,
    has_wildcards: bool,
    subs: Ghost<Set<(Seq<char>, SubscriptionId)>>,
}

/// The ids that a subject is routed to: the exact subscriptions under its
/// text, then the matching wildcard subscriptions.
pub open spec fn routed(e: &RoutingEngine, s: SubjectView) -> Seq<SubscriptionId> {
    exact_ids(e.exact_map(), s.raw) + ids_of(matching(e.trie_entries(), s.tokens))
}

impl RoutingEngine {
    /// The subscriptions held: pattern text and id.
    pub closed spec fn subscriptions(&self) -> Set<(Seq<char>, SubscriptionId)> {
        self.subs@
    }

    /// The exact subscriptions, keyed by pattern text.
    pub closed spec fn exact_map(&self) -> Map<Seq<char>, Seq<SubscriptionId>> {
        exact_routes(self.exact)
    }

    /// The wildcard subscriptions stored in the trie.
    pub closed spec fn trie_entries(&self) -> Seq<TrieEntry> {
        self.wildcard_trie.entries()
    }

    /// The trie's subscription counter.
    pub closed spec fn trie_count(&self) -> usize {
        self.wildcard_trie.count()
    }

    /// The fast-path flag: false only when no wildcard subscription is stored.
    pub closed spec fn wildcard_flag(&self) -> bool {
        self.has_wildcards
    }

    /// Each subscription id is stored at most once under a pattern text,
    /// at most once in the trie, and never in both.
    pub open spec fn ids_unique(&self) -> bool {
        &&& forall|raw: Seq<char>, id: SubscriptionId|
            #[trigger] exact_ids(self.exact_map(), raw).to_multiset().count(id)
                + ids_of(self.trie_entries()).to_multiset().count(id) <= 1
        &&& forall|id: SubscriptionId| #[trigger] ids_of(self.trie_entries()).to_multiset().count(id) <= 1
    }

    /// The engine is consistent: each held subscription is stored exactly
    /// once in the right place, and the flag is false only for an empty trie.
    pub closed spec fn wf(&self) -> bool {
        let e = self.exact_map();
        let t = self.trie_entries();
        let subs = self.subs@;
        &&& self.wildcard_trie.wf()
        &&& !self.has_wildcards ==> t.len() == 0
        &&& forall|raw: Seq<char>, id: SubscriptionId| #[trigger]
            subs.contains((raw, id)) ==> valid_pattern(raw)
        &&& forall|raw: Seq<char>, id: SubscriptionId|
            #![trigger subs.contains((raw, id))]
            #![trigger exact_ids(e, raw).contains(id)]
            exact_ids(e, raw).contains(id) <==> (subs.contains((raw, id)) && !has_wild(raw))
        &&& forall|raw: Seq<char>, id: SubscriptionId| #[trigger]
            subs.contains((raw, id)) && has_wild(raw) ==> t.contains(route_entry(raw, id))
        &&& forall|x: TrieEntry| #[trigger]
            t.contains(x) ==> exists|raw: Seq<char>|
                #[trigger] subs.contains((raw, x.id)) && has_wild(raw) && x == route_entry(raw, x.id)
    }

    /// An engine without subscriptions.
    pub fn new() -> (r: Self)
        ensures
            r.wf(),
            r.subscriptions() == Set::<(Seq<char>, SubscriptionId)>::empty(),
            r.trie_count() == 0,
            !r.wildcard_flag(),
            r.ids_unique(),
    {
        let r = RoutingEngine {
            exact: routes_new(),
            wildcard_trie: SubjectTrie::new(),
            has_wildcards: false,
            subs: Ghost(Set::empty()),
        };
        proof {
            broadcast use vstd::seq_lib::group_to_multiset_ensures;

            assert(ids_of(r.trie_entries()) =~= Seq::<SubscriptionId>::empty());
            assert forall|raw: Seq<char>, id: SubscriptionId|
                #[trigger] exact_ids(r.exact_map(), raw).to_multiset().count(id)
                    + ids_of(r.trie_entries()).to_multiset().count(id) <= 1 by {
                assert(exact_ids(r.exact_map(), raw) =~= Seq::<SubscriptionId>::empty());
            }
        }
        r
    }

    /// Adds subscription `sub_id` with the given pattern.
    pub fn insert(&mut self, pattern: &SubjectPattern, sub_id: SubscriptionId)
        requires
            old(self).wf(),
            old(self).trie_count() < usize::MAX,
        ensures
            final(self).wf(),
            final(self).subscriptions() == old(self).subscriptions().insert((pattern@.raw, sub_id)),
            final(self).trie_count() <= old(self).trie_count() + 1,
            has_wild(pattern@.raw) ==> final(self).wildcard_flag(),
            !has_wild(pattern@.raw) ==> final(self).wildcard_flag() == old(self).wildcard_flag(),
            old(self).ids_unique() && (forall|r: Seq<char>| !#[trigger] old(self).subscriptions().contains((r, sub_id)))
                ==> final(self).ids_unique(),
    {
        let (wild, gt) = wildcard_kind(pattern);
        let ghost raw = pattern@.raw;
        let ghost old_e = self.exact_map();
        let ghost old_t = self.trie_entries();
        let ghost old_subs = self.subs@;
        if !wild {
            let key = pattern.as_str();
            let mut list = match routes_get(&self.exact, key) {
                Some(v) => v,
                None => Vec::new(),
            };
            list.push(sub_id);
            routes_insert(&mut self.exact, key.to_owned(), list);
            self.subs = Ghost(self.subs@.insert((raw, sub_id)));
            proof {
                let e = self.exact_map();
                let before = exact_ids(old_e, raw);
                assert(exact_ids(e, raw) == before.push(sub_id));
                assert forall|r: Seq<char>, id: SubscriptionId|
                    #![trigger self.subs@.contains((r, id))]
                    #![trigger exact_ids(e, r).contains(id)]
                    exact_ids(e, r).contains(id) <==> (self.subs@.contains((r, id)) && !has_wild(r)) by {
                    if r == raw {
                        if before.contains(id) {
                            let k = choose|k: int| 0 <= k < before.len() && before[k] == id;
                            assert(exact_ids(e, r)[k] == id);
                        }
                        if exact_ids(e, r).contains(id) && id != sub_id {
                            let k = choose|k: int|
                                0 <= k < exact_ids(e, r).len() && exact_ids(e, r)[k] == id;
                            assert(before[k] == id);
                        }
                        assert(exact_ids(e, r)[before.len() as int] == sub_id);
                    } else {
                        assert(exact_ids(e, r) == exact_ids(old_e, r));
                    }
                }
                let t = self.trie_entries();
                assert forall|x: TrieEntry| #[trigger]
                    t.contains(x) implies exists|r: Seq<char>|
                        #[trigger] self.subs@.contains((r, x.id)) && has_wild(r) && x == route_entry(
                            r,
                            x.id,
                        ) by {
                    let r = choose|r: Seq<char>|
                        #[trigger] old_subs.contains((r, x.id)) && has_wild(r) && x == route_entry(
                            r,
                            x.id,
                        );
                    assert(self.subs@.contains((r, x.id)));
                }
            }
            proof {
                if old(self).ids_unique() && (forall|r: Seq<char>| !#[trigger] old(self).subscriptions().contains((r, sub_id))) {
                    broadcast use vstd::seq_lib::group_to_multiset_ensures;

                    let e = self.exact_map();
                    let t = self.trie_entries();
                    assert(t == old_t);
                    let before = exact_ids(old_e, raw);
                    lemma_fresh_absent(&*old(self), sub_id, raw);
                    assert forall|id: SubscriptionId| #[trigger] ids_of(t).to_multiset().count(id) <= 1 by {
                        assert(ids_of(old_t).to_multiset().count(id) <= 1);
                    }
                    assert forall|r: Seq<char>, id: SubscriptionId|
                        #[trigger] exact_ids(e, r).to_multiset().count(id) + ids_of(t).to_multiset().count(id) <= 1 by {
                        if r == raw {
                            assert(exact_ids(e, r) == before.push(sub_id));
                            assert(exact_ids(old_e, raw).to_multiset().count(id) + ids_of(t).to_multiset().count(id) <= 1);
                        } else {
                            assert(exact_ids(e, r) == exact_ids(old_e, r));
                            assert(exact_ids(old_e, r).to_multiset().count(id) + ids_of(t).to_multiset().count(id) <= 1);
                        }
                    }
                }
            }
        } else {
            let tokens = route_tokens(pattern);
            let ghost ne = insert_entry(views(tokens@), sub_id, gt);
            assert(ne == route_entry(raw, sub_id));
            self.wildcard_trie.insert(tokens.as_slice(), sub_id, gt);
            self.has_wildcards = true;
            self.subs = Ghost(self.subs@.insert((raw, sub_id)));
            proof {
                broadcast use vstd::seq_lib::group_to_multiset_ensures;
                broadcast use vstd::multiset::group_multiset_axioms;

                let t = self.trie_entries();
                assert forall|x: TrieEntry| #[trigger] t.contains(x) <==> (old_t.contains(x) || x == ne) by {
                    assert(t.to_multiset().count(x) == old_t.to_multiset().insert(ne).count(x));
                }
                assert forall|x: TrieEntry| #[trigger]
                    t.contains(x) implies exists|r: Seq<char>|
                        #[trigger] self.subs@.contains((r, x.id)) && has_wild(r) && x == route_entry(
                            r,
                            x.id,
                        ) by {
                    if x == ne {
                        assert(self.subs@.contains((raw, x.id)));
                    } else {
                        let r = choose|r: Seq<char>|
                            #[trigger] old_subs.contains((r, x.id)) && has_wild(r) && x == route_entry(
                                r,
                                x.id,
                            );
                        assert(self.subs@.contains((r, x.id)));
                    }
                }
                if old(self).ids_unique() && (forall|r: Seq<char>| !#[trigger] old(self).subscriptions().contains((r, sub_id))) {
                    broadcast use vstd::seq_lib::group_to_multiset_ensures;

                    assert(old_t.push(ne).to_multiset() == t.to_multiset());
                    lemma_ids_perm(old_t.push(ne), t);
                    assert(ids_of(old_t.push(ne)) =~= ids_of(old_t).push(sub_id));
                    let e = self.exact_map();
                    assert forall|r: Seq<char>, id: SubscriptionId|
                        #[trigger] exact_ids(e, r).to_multiset().count(id) + ids_of(t).to_multiset().count(id) <= 1 by {
                        lemma_fresh_absent(&*old(self), sub_id, r);
                        assert(exact_ids(old_e, r).to_multiset().count(id) + ids_of(old_t).to_multiset().count(id) <= 1);
                    }
                    assert forall|id: SubscriptionId| #[trigger] ids_of(t).to_multiset().count(id) <= 1 by {
                        lemma_fresh_absent(&*old(self), sub_id, raw);
                        assert(ids_of(old_t).to_multiset().count(id) <= 1);
                    }
                }
            }
        }
    }

    /// Removes subscription `sub_id` with the given pattern, if it is held.
    pub fn remove(&mut self, pattern: &SubjectPattern, sub_id: SubscriptionId)
        requires
            old(self).wf(),
        ensures
            final(self).wf(),
            final(self).subscriptions() == old(self).subscriptions().remove((pattern@.raw, sub_id)),
            final(self).trie_count() <= old(self).trie_count(),
            old(self).ids_unique() ==> final(self).ids_unique(),
    {
        let (wild, gt) = wildcard_kind(pattern);
        let ghost raw = pattern@.raw;
        let ghost old_e = self.exact_map();
        let ghost old_t = self.trie_entries();
        let ghost old_subs = self.subs@;
        if !wild {
            let key = pattern.as_str();
            match routes_get(&self.exact, key) {
                Some(list) => {
                    let ghost before = list@;
                    let mut kept = list;
                    remove_id(&mut kept, sub_id);
                    let ghost after = kept@;
                    routes_insert(&mut self.exact, key.to_owned(), kept);
                    self.subs = Ghost(self.subs@.remove((raw, sub_id)));
                    proof {
                        let e = self.exact_map();
                        assert(exact_ids(old_e, raw) == before);
                        assert(exact_ids(e, raw) == after);
                        assert forall|r: Seq<char>, id: SubscriptionId|
                            #![trigger self.subs@.contains((r, id))]
                            #![trigger exact_ids(e, r).contains(id)]
                            exact_ids(e, r).contains(id) <==> (self.subs@.contains((r, id))
                                && !has_wild(r)) by {
                            if r != raw {
                                assert(exact_ids(e, r) == exact_ids(old_e, r));
                            } else {
                                lemma_filter_ne(before, sub_id, id);
                            }
                        }
                        if old(self).ids_unique() {
                            assert forall|r: Seq<char>, id: SubscriptionId|
                                #[trigger] exact_ids(e, r).to_multiset().count(id)
                                    + ids_of(self.trie_entries()).to_multiset().count(id) <= 1 by {
                                assert(exact_ids(old_e, r).to_multiset().count(id)
                                    + ids_of(old_t).to_multiset().count(id) <= 1);
                                if r == raw {
                                    lemma_filter_count(before, not_id(sub_id), id);
                                } else {
                                    assert(exact_ids(e, r) == exact_ids(old_e, r));
                                }
                            }
                        }
                        let t = self.trie_entries();
                        assert forall|x: TrieEntry| #[trigger]
                            t.contains(x) implies exists|r: Seq<char>|
                                #[trigger] self.subs@.contains((r, x.id)) && has_wild(r) && x == route_entry(
                                    r,
                                    x.id,
                                ) by {
                            let r = choose|r: Seq<char>|
                                #[trigger] old_subs.contains((r, x.id)) && has_wild(r) && x == route_entry(
                                    r,
                                    x.id,
                                );
                            assert(self.subs@.contains((r, x.id)));
                        }
                    }
                },
                None => {
                    proof {
                        assert(exact_ids(old_e, raw) =~= Seq::<SubscriptionId>::empty());
                        assert(!exact_ids(old_e, raw).contains(sub_id));
                        assert(!old_subs.contains((raw, sub_id)));
                        assert(old_subs.remove((raw, sub_id)) =~= old_subs);
                    }
                    self.subs = Ghost(self.subs@.remove((raw, sub_id)));
                },
            }
        } else {
            let tokens = route_tokens(pattern);
            let ghost ne = insert_entry(views(tokens@), sub_id, gt);
            assert(ne == route_entry(raw, sub_id));
            self.wildcard_trie.remove(tokens.as_slice(), sub_id, gt);
            self.subs = Ghost(self.subs@.remove((raw, sub_id)));
            if self.wildcard_trie.is_empty() {
                self.has_wildcards = false;
            }
            proof {
                let t = self.trie_entries();
                assert forall|x: TrieEntry| #[trigger] t.contains(x) <==> (old_t.contains(x) && x != ne) by {
                    lemma_without_contains_iff(old_t, ne, x);
                }
                if old(self).ids_unique() {
                    assert forall|r: Seq<char>, id: SubscriptionId|
                        #[trigger] exact_ids(self.exact_map(), r).to_multiset().count(id) + ids_of(t).to_multiset().count(id)
                            <= 1 by {
                        assert(exact_ids(old_e, r).to_multiset().count(id) + ids_of(old_t).to_multiset().count(id) <= 1);
                        lemma_ids_filter_count(old_t, other_than(ne), id);
                    }
                    assert forall|id: SubscriptionId| #[trigger] ids_of(t).to_multiset().count(id) <= 1 by {
                        assert(ids_of(old_t).to_multiset().count(id) <= 1);
                        lemma_ids_filter_count(old_t, other_than(ne), id);
                    }
                }
                assert forall|r: Seq<char>, id: SubscriptionId| #[trigger]
                    self.subs@.contains((r, id)) && has_wild(r) implies t.contains(route_entry(r, id)) by {
                    if route_entry(r, id) == ne {
                        lemma_route_entry_injective(r, id, raw, sub_id);
                    }
                }
                assert forall|x: TrieEntry| #[trigger]
                    t.contains(x) implies exists|r: Seq<char>|
                        #[trigger] self.subs@.contains((r, x.id)) && has_wild(r) && x == route_entry(
                            r,
                            x.id,
                        ) by {
                    let r = choose|r: Seq<char>|
                        #[trigger] old_subs.contains((r, x.id)) && has_wild(r) && x == route_entry(
                            r,
                            x.id,
                        );
                    assert(self.subs@.contains((r, x.id)));
                }
            }
        }
    }

    /// The ids that the subject is routed to: the exact subscriptions under
    /// its text, then the matching wildcard subscriptions.
    pub fn match_subject(&self, subject: &Subject) -> (r: MatchResult)
        requires
            self.wf(),
        ensures
            r@ == routed(self, subject@),
    {
        let mut results = MatchResult::from_vec(
            match routes_get(&self.exact, subject.as_str()) {
                Some(v) => v,
                None => Vec::new(),
            },
        );
        if self.has_wildcards {
            let wild = self.wildcard_trie.match_subject(subject);
            append_all(&mut results, &wild);
        } else {
            proof {
                lemma_matching_empty(self.trie_entries(), subject@.tokens);
            }
        }
        results
    }

    /// The trie's subscription counter.
    pub fn trie_subscriber_count(&self) -> (r: usize)
        ensures
            r == self.trie_count(),
    {
        self.wildcard_trie.subscriber_count()
    }

    /// Whether a wildcard subscription may be stored.
    pub fn has_wildcards(&self) -> (r: bool)
        requires
            self.wf(),
        ensures
            r == self.wildcard_flag(),
            !r ==> self.trie_entries().len() == 0,
    {
        self.has_wildcards
    }

    /// Whether no exact subscription is held under the given text.
    pub fn exact_is_empty(&self, subject_str: &str) -> (r: bool)
        ensures
            r == (exact_ids(self.exact_map(), subject_str@).len() == 0),
    {
        match routes_get(&self.exact, subject_str) {
            Some(v) => v.len() == 0,
            None => true,
        }
    }

    /// The single exact subscriber of the subject, when there is exactly one.
    pub fn exact_single_subscriber(&self, subject: &Subject) -> (r: Option<SubscriptionId>)
        ensures
            r == (if exact_ids(self.exact_map(), subject@.raw).len() == 1 {
                Some(exact_ids(self.exact_map(), subject@.raw)[0])
            } else {
                None
            }),
    {
        match routes_get(&self.exact, subject.as_str()) {
            Some(v) => {
                if v.len() == 1 {
                    Some(v[0])
                } else {
                    None
                }
            },
            None => None,
        }
    }

    /// The exact subscriptions under the text, and whether wildcard
    /// subscriptions must also be consulted (which needs a parsed subject).
    pub fn match_subject_str(&self, subject_str: &str) -> (r: (MatchResult, bool))
        ensures
            r.0@ == exact_ids(self.exact_map(), subject_str@),
            r.1 == self.wildcard_flag(),
    {
        let results = match routes_get(&self.exact, subject_str) {
            Some(v) => v,
            None => Vec::new(),
        };
        (MatchResult::from_vec(results), self.has_wildcards)
    }

    /// The matching wildcard subscriptions only.
    pub fn match_wildcards(&self, subject: &Subject) -> (r: MatchResult)
        requires
            self.wf(),
        ensures
            r@ == ids_of(matching(self.trie_entries(), subject@.tokens)),
    {
        if self.has_wildcards {
            self.wildcard_trie.match_subject(subject)
        } else {
            proof {
                lemma_matching_empty(self.trie_entries(), subject@.tokens);
            }
            MatchResult::new()
        }
    }
}

/// No stored entries: nothing matches.
pub proof fn lemma_matching_empty(t: Seq<TrieEntry>, s: Seq<Seq<char>>)
    requires
        t.len() == 0,
    ensures
        ids_of(matching(t, s)) == Seq::<SubscriptionId>::empty(),
{
    reveal(Seq::filter);
    assert(ids_of(matching(t, s)) =~= Seq::<SubscriptionId>::empty());
}

proof fn lemma_without_contains_iff(s: Seq<TrieEntry>, e: TrieEntry, x: TrieEntry)
    ensures
        without(s, e).contains(x) == (s.contains(x) && x != e),
{
    broadcast use vstd::seq_lib::group_filter_ensures;

    if s.contains(x) && x != e {
        let i = choose|i: int| 0 <= i < s.len() && s[i] == x;
        assert(without(s, e).contains(s[i]));
    }
    if without(s, e).contains(x) {
        s.lemma_filter_contains_rev(other_than(e), x);
        let i = choose|i: int| 0 <= i < without(s, e).len() && without(s, e)[i] == x;
        assert(other_than(e)(without(s, e)[i]));
    }
}

proof fn lemma_filter_ne(v: Seq<SubscriptionId>, id: SubscriptionId, x: SubscriptionId)
    ensures
        v.filter(not_id(id)).contains(x) == (v.contains(x) && x != id),
{
    broadcast use vstd::seq_lib::group_filter_ensures;

    let f = v.filter(not_id(id));
    if v.contains(x) && x != id {
        let i = choose|i: int| 0 <= i < v.len() && v[i] == x;
        assert(f.contains(v[i]));
    }
    if f.contains(x) {
        v.lemma_filter_contains_rev(not_id(id), x);
        let i = choose|i: int| 0 <= i < f.len() && f[i] == x;
        assert(f[i] != id);
    }
}

/// Appends `v` to `out`.
fn append_all(out: &mut MatchResult, v: &MatchResult)
    ensures
        final(out)@ == old(out)@ + v@,
{
    let ghost start = out@;
    let mut i: usize = 0;
    while i < v.len()
        invariant
            i <= v@.len(),
            out@ == start + v@.subrange(0, i as int),
        decreases v@.len() - i,
    {
        out.push(v.get(i));
        i = i + 1;
        assert(v@.subrange(0, i as int) == v@.subrange(0, i - 1) + seq![v@[i - 1]]);
    }
    assert(v@.subrange(0, v@.len() as int) == v@);
}

/// Routing law: a subject is routed to a subscription exactly when that
/// subscription's pattern matches the subject: exact patterns by equal text,
/// `*` by any one token, `>` by one or more remaining tokens.
pub proof fn lemma_routing_complete(e: &RoutingEngine, s: SubjectView, id: SubscriptionId)
    requires
        e.wf(),
        subject_wf(s),
    ensures
        routed(e, s).contains(id) <==> exists|raw: Seq<char>|
            #[trigger] e.subscriptions().contains((raw, id)) && raw_matches(raw, s.tokens),
{
    broadcast use vstd::seq_lib::group_filter_ensures;

    let ex = exact_ids(e.exact_map(), s.raw);
    let t = e.trie_entries();
    let m = matching(t, s.tokens);
    let w = ids_of(m);
    lemma_concat_contains_ids(ex, w, id);
    if ex.contains(id) {
        assert(e.subscriptions().contains((s.raw, id)) && !has_wild(s.raw));
        lemma_plain_matches(s.raw, s);
    }
    if w.contains(id) {
        let k = choose|k: int| 0 <= k < w.len() && w[k] == id;
        let x = m[k];
        assert(m.contains(x));
        t.lemma_filter_contains_rev(|y: TrieEntry| entry_matches(y, s.tokens), x);
        assert(t.contains(x));
        assert(entry_matches(x, s.tokens));
        let raw = choose|raw: Seq<char>|
            #[trigger] e.subscriptions().contains((raw, x.id)) && has_wild(raw) && x == route_entry(
                raw,
                x.id,
            );
        lemma_route_entry_matches(raw, x.id, s.tokens);
        assert(e.subscriptions().contains((raw, id)));
    }
    if exists|raw: Seq<char>| #[trigger] e.subscriptions().contains((raw, id)) && raw_matches(raw, s.tokens) {
        let raw = choose|raw: Seq<char>|
            #[trigger] e.subscriptions().contains((raw, id)) && raw_matches(raw, s.tokens);
        if has_wild(raw) {
            let x = route_entry(raw, id);
            assert(t.contains(x));
            lemma_route_entry_matches(raw, id, s.tokens);
            let k = choose|k: int| 0 <= k < t.len() && t[k] == x;
            assert(m.contains(t[k]));
            let j = choose|j: int| 0 <= j < m.len() && m[j] == x;
            assert(w[j] == id);
        } else {
            lemma_plain_matches(raw, s);
            assert(e.exact_map().dom().contains(raw) && e.exact_map()[raw].contains(id));
        }
    }
}

/// An id held under no pattern is in no exact list and no trie entry.
proof fn lemma_fresh_absent(e: &RoutingEngine, id: SubscriptionId, raw: Seq<char>)
    requires
        e.wf(),
        forall|r: Seq<char>| !#[trigger] e.subscriptions().contains((r, id)),
    ensures
        exact_ids(e.exact_map(), raw).to_multiset().count(id) == 0,
        ids_of(e.trie_entries()).to_multiset().count(id) == 0,
{
    broadcast use vstd::seq_lib::group_to_multiset_ensures;

    let t = e.trie_entries();
    assert(!e.subscriptions().contains((raw, id)));
    assert(!exact_ids(e.exact_map(), raw).contains(id));
    if ids_of(t).contains(id) {
        let k = choose|k: int| 0 <= k < ids_of(t).len() && ids_of(t)[k] == id;
        assert(t.contains(t[k]));
        let r = choose|r: Seq<char>|
            #[trigger] e.subscriptions().contains((r, t[k].id)) && has_wild(r) && t[k] == route_entry(r, t[k].id);
        assert(e.subscriptions().contains((r, id)));
    }
}

/// An engine that holds no subscription stores each id at most once.
pub proof fn lemma_empty_unique(e: &RoutingEngine)
    requires
        e.wf(),
        e.subscriptions() == Set::<(Seq<char>, SubscriptionId)>::empty(),
    ensures
        e.ids_unique(),
{
    assert forall|raw: Seq<char>, id: SubscriptionId|
        #[trigger] exact_ids(e.exact_map(), raw).to_multiset().count(id) + ids_of(e.trie_entries()).to_multiset().count(id)
            <= 1 by {
        lemma_fresh_absent(e, id, raw);
    }
    assert forall|id: SubscriptionId| #[trigger] ids_of(e.trie_entries()).to_multiset().count(id) <= 1 by {
        lemma_fresh_absent(e, id, Seq::empty());
    }
}

/// Filtering keeps at most as many copies of each element.
proof fn lemma_filter_count<A>(v: Seq<A>, f: spec_fn(A) -> bool, x: A)
    ensures
        v.filter(f).to_multiset().count(x) <= v.to_multiset().count(x),
    decreases v.len(),
{
    broadcast use vstd::seq_lib::group_to_multiset_ensures;
    broadcast use vstd::multiset::group_multiset_axioms;

    reveal(Seq::filter);
    if v.len() > 0 {
        lemma_filter_count(v.drop_last(), f, x);
        assert(v =~= v.drop_last().push(v.last()));
    }
}

/// Filtering entries keeps at most as many entries with each id.
proof fn lemma_ids_filter_count(t: Seq<TrieEntry>, f: spec_fn(TrieEntry) -> bool, id: SubscriptionId)
    ensures
        ids_of(t.filter(f)).to_multiset().count(id) <= ids_of(t).to_multiset().count(id),
    decreases t.len(),
{
    broadcast use vstd::seq_lib::group_to_multiset_ensures;
    broadcast use vstd::multiset::group_multiset_axioms;

    reveal(Seq::filter);
    if t.len() > 0 {
        lemma_ids_filter_count(t.drop_last(), f, id);
        assert(ids_of(t) =~= ids_of(t.drop_last()).push(t.last().id));
        let sub = t.drop_last().filter(f);
        assert(ids_of(sub.push(t.last())) =~= ids_of(sub).push(t.last().id));
    }
}

/// Entries that are the same as a multiset carry the same ids.
proof fn lemma_ids_perm(a: Seq<TrieEntry>, b: Seq<TrieEntry>)
    requires
        a.to_multiset() == b.to_multiset(),
    ensures
        ids_of(a).to_multiset() == ids_of(b).to_multiset(),
    decreases a.len(),
{
    broadcast use vstd::seq_lib::group_to_multiset_ensures;
    broadcast use vstd::multiset::group_multiset_axioms;

    if a.len() == 0 {
        assert(a.to_multiset().len() == 0);
        assert(b.to_multiset().len() == b.len());
        assert(b.len() == 0);
        assert(ids_of(a) =~= Seq::<SubscriptionId>::empty());
        assert(ids_of(b) =~= Seq::<SubscriptionId>::empty());
    } else {
        let x = a.last();
        let a0 = a.drop_last();
        assert(a =~= a0.push(x));
        assert(a.to_multiset().count(x) > 0);
        assert(b.contains(x));
        let k = choose|k: int| 0 <= k < b.len() && b[k] == x;
        assert(b.remove(k).to_multiset() =~= a0.to_multiset());
        lemma_ids_perm(a0, b.remove(k));
        assert(ids_of(b.remove(k)) =~= ids_of(b).remove(k));
        assert(ids_of(b)[k] == x.id);
        assert(ids_of(a) =~= ids_of(a0).push(x.id));
        let mb = ids_of(b).to_multiset();
        assert(mb.count(x.id) > 0);
        assert(mb.remove(x.id).insert(x.id) =~= mb);
    }
}

/// Routing law: where each subscription id is stored once, as it is after
/// adding only ids that are not held, a subject is routed to each
/// subscription at most once.
pub proof fn lemma_routing_no_duplicates(e: &RoutingEngine, s: SubjectView)
    requires
        e.wf(),
        e.ids_unique(),
    ensures
        routed(e, s).no_duplicates(),
{
    broadcast use vstd::multiset::group_multiset_axioms;

    let ex = exact_ids(e.exact_map(), s.raw);
    let t = e.trie_entries();
    let w = ids_of(matching(t, s.tokens));
    vstd::seq_lib::lemma_multiset_commutative(ex, w);
    assert forall|x: SubscriptionId| routed(e, s).to_multiset().contains(x) implies routed(e, s).to_multiset().count(x) == 1 by {
        lemma_ids_filter_count(t, |y: TrieEntry| entry_matches(y, s.tokens), x);
        assert(ex.to_multiset().count(x) + ids_of(t).to_multiset().count(x) <= 1);
    }
    routed(e, s).lemma_multiset_has_no_duplicates_conv();
}

proof fn lemma_concat_contains_ids(a: Seq<SubscriptionId>, b: Seq<SubscriptionId>, x: SubscriptionId)
    ensures
        (a + b).contains(x) == (a.contains(x) || b.contains(x)),
{
    if a.contains(x) {
        let i = choose|i: int| 0 <= i < a.len() && a[i] == x;
        assert((a + b)[i] == x);
    }
    if b.contains(x) {
        let i = choose|i: int| 0 <= i < b.len() && b[i] == x;
        assert((a + b)[a.len() + i] == x);
    }
    if (a + b).contains(x) {
        let i = choose|i: int| 0 <= i < (a + b).len() && (a + b)[i] == x;
        if i < a.len() {
            assert(a[i] == x);
        } else {
            assert(b[i - a.len()] == x);
        }
    }
}

} // verus!
