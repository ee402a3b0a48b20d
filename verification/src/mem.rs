//! The in-memory policy store: a mapping from (resource, action) to
//! policy, held as entries sorted by resource and then action so that a
//! listing by resource comes out in ascending action order.

use vstd::prelude::*;

verus! {

use crate::expr::ExprS;
use crate::policy::Policy;
use crate::policy::PolicyList;
use crate::strings::lex_lt;
use crate::strings::lemma_lex_lt_trichotomy;
use crate::strings::lemma_lex_lt_trans;
use crate::types::Action;
use crate::types::cmp_action;
use crate::types::cmp_resource;
use crate::types::Resource;

/// One stored policy under its (resource, action) key.
type Entry = (Resource, Action, Policy);

/// Strict order on keys: by resource name, then by action name.
pub open spec fn key_lt(a: (Seq<char>, Seq<char>), b: (Seq<char>, Seq<char>)) -> bool {
    lex_lt(a.0, b.0) || (a.0 == b.0 && lex_lt(a.1, b.1))
}

/// The key of an entry.
pub open spec fn key_of(e: Entry) -> (Seq<char>, Seq<char>) {
    (e.0@, e.1@)
}

/// Entries stand in strictly ascending key order.
pub open spec fn sorted(s: Seq<Entry>) -> bool {
    forall|i: int, j: int| 0 <= i < j < s.len() ==> key_lt(key_of(s[i]), key_of(s[j]))
}

/// `key_lt` is a strict total order on keys.
pub proof fn lemma_key_lt(a: (Seq<char>, Seq<char>), b: (Seq<char>, Seq<char>))
    ensures
        key_lt(a, b) || key_lt(b, a) || a == b,
        key_lt(a, b) ==> !key_lt(b, a) && a != b,
{
    lemma_lex_lt_trichotomy(a.0, b.0);
    lemma_lex_lt_trichotomy(a.1, b.1);
    if a.0 == b.0 && a.1 == b.1 {
        assert(a == b);
    }
}

/// `key_lt` is transitive.
pub proof fn lemma_key_lt_trans(
    a: (Seq<char>, Seq<char>),
    b: (Seq<char>, Seq<char>),
    c: (Seq<char>, Seq<char>),
)
    requires
        key_lt(a, b),
        key_lt(b, c),
    ensures
        key_lt(a, c),
{
    if lex_lt(a.0, b.0) && lex_lt(b.0, c.0) {
        lemma_lex_lt_trans(a.0, b.0, c.0);
    }
    if a.1 != c.1 || a.0 != c.0 {
        if a.0 == c.0 && lex_lt(a.1, b.1) && lex_lt(b.1, c.1) {
            lemma_lex_lt_trans(a.1, b.1, c.1);
        }
    }
    lemma_lex_lt_trichotomy(a.0, c.0);
    lemma_lex_lt_trichotomy(a.1, c.1);
    if a == c {
        lemma_key_lt(a, b);
        lemma_key_lt(b, c);
    }
}

/// The mapping that a sequence of entries denotes.
pub open spec fn entries_map(s: Seq<Entry>) -> Map<(Seq<char>, Seq<char>), ExprS>
    decreases s.len(),
{
    if s.len() == 0 {
        Map::empty()
    } else {
        entries_map(s.drop_last()).insert(key_of(s.last()), s.last().2@)
    }
}

/// A key is in the mapping exactly when some entry carries it.
pub proof fn lemma_entries_map_domain(s: Seq<Entry>, k: (Seq<char>, Seq<char>))
    ensures
        entries_map(s).contains_key(k) <==> exists|i: int| 0 <= i < s.len() && key_of(s[i]) == k,
    decreases s.len(),
{
    if s.len() > 0 {
        lemma_entries_map_domain(s.drop_last(), k);
        if entries_map(s).contains_key(k) && key_of(s.last()) != k {
            let i = choose|i: int| 0 <= i < s.drop_last().len() && key_of(s.drop_last()[i]) == k;
            assert(key_of(s[i]) == k);
        }
        if exists|i: int| 0 <= i < s.len() && key_of(s[i]) == k {
            let i = choose|i: int| 0 <= i < s.len() && key_of(s[i]) == k;
            if i < s.len() - 1 {
                assert(key_of(s.drop_last()[i]) == k);
            }
        }
    }
}

/// Under sorted (hence distinct) keys, each entry gives its key's value.
pub proof fn lemma_entries_map_index(s: Seq<Entry>, i: int)
    requires
        sorted(s),
        0 <= i < s.len(),
    ensures
        entries_map(s).contains_key(key_of(s[i])),
        entries_map(s)[key_of(s[i])] == s[i].2@,
    decreases s.len(),
{
    if i == s.len() - 1 {
    } else {
        assert(s.drop_last()[i] == s[i]);
        lemma_entries_map_index(s.drop_last(), i);
        lemma_key_lt(key_of(s[i]), key_of(s.last()));
    }
}

/// Inserting an entry whose key no later entry carries inserts its pair
/// into the mapping and keeps the order sorted.
pub proof fn lemma_entries_insert(s: Seq<Entry>, idx: int, e: Entry)
    requires
        sorted(s),
        0 <= idx <= s.len(),
        forall|j: int| 0 <= j < idx ==> key_lt(key_of(s[j]), key_of(e)),
        forall|j: int| idx <= j < s.len() ==> key_lt(key_of(e), key_of(s[j])),
    ensures
        sorted(s.insert(idx, e)),
        entries_map(s.insert(idx, e)) == entries_map(s).insert(key_of(e), e.2@),
    decreases s.len() - idx,
{
    let t = s.insert(idx, e);
    assert forall|p: int, q: int| 0 <= p < q < t.len() implies key_lt(
        key_of(t[p]),
        key_of(t[q]),
    ) by {
        if p < idx {
            assert(t[p] == s[p]);
        } else if p == idx {
            assert(t[p] == e);
        } else {
            assert(t[p] == s[p - 1]);
        }
        if q < idx {
            assert(t[q] == s[q]);
        } else if q == idx {
            assert(t[q] == e);
        } else {
            assert(t[q] == s[q - 1]);
        }
    }
    if idx == s.len() {
        assert(t.drop_last() =~= s);
        assert(t.last() == e);
    } else {
        assert(t.drop_last() =~= s.drop_last().insert(idx, e));
        assert(forall|j: int|
            0 <= j < s.drop_last().len() ==> s.drop_last()[j] == s[j]);
        lemma_entries_insert(s.drop_last(), idx, e);
        assert(t.last() == s.last());
        lemma_key_lt(key_of(e), key_of(s.last()));
        assert(entries_map(t) =~= entries_map(s).insert(key_of(e), e.2@));
    }
}

/// Replacing the entry that carries a key updates the mapping at that
/// key alone and keeps the order sorted.
pub proof fn lemma_entries_update(s: Seq<Entry>, idx: int, e: Entry)
    requires
        sorted(s),
        0 <= idx < s.len(),
        key_of(e) == key_of(s[idx]),
    ensures
        sorted(s.update(idx, e)),
        entries_map(s.update(idx, e)) == entries_map(s).insert(key_of(e), e.2@),
    decreases s.len(),
{
    let t = s.update(idx, e);
    assert forall|p: int, q: int| 0 <= p < q < t.len() implies key_lt(
        key_of(t[p]),
        key_of(t[q]),
    ) by {
        assert(key_of(t[p]) == key_of(s[p]));
        assert(key_of(t[q]) == key_of(s[q]));
    }
    if idx == s.len() - 1 {
        assert(t.drop_last() =~= s.drop_last());
        assert(t.last() == e);
        assert(entries_map(t) =~= entries_map(s).insert(key_of(e), e.2@));
    } else {
        assert(t.drop_last() =~= s.drop_last().update(idx, e));
        assert(s.drop_last()[idx] == s[idx]);
        lemma_entries_update(s.drop_last(), idx, e);
        assert(t.last() == s.last());
        lemma_key_lt(key_of(e), key_of(s.last()));
        assert(entries_map(t) =~= entries_map(s).insert(key_of(e), e.2@));
    }
}

/// Removing the entry that carries a key removes its key from the
/// mapping and keeps the order sorted.
pub proof fn lemma_entries_remove(s: Seq<Entry>, idx: int)
    requires
        sorted(s),
        0 <= idx < s.len(),
    ensures
        sorted(s.remove(idx)),
        entries_map(s.remove(idx)) == entries_map(s).remove(key_of(s[idx])),
    decreases s.len(),
{
    let t = s.remove(idx);
    let k = key_of(s[idx]);
    assert forall|p: int, q: int| 0 <= p < q < t.len() implies key_lt(
        key_of(t[p]),
        key_of(t[q]),
    ) by {
        if p < idx {
            assert(t[p] == s[p]);
        } else {
            assert(t[p] == s[p + 1]);
        }
        if q < idx {
            assert(t[q] == s[q]);
        } else {
            assert(t[q] == s[q + 1]);
        }
    }
    if idx == s.len() - 1 {
        assert(t =~= s.drop_last());
        lemma_entries_map_domain(t, k);
        assert forall|i: int| 0 <= i < t.len() implies key_of(t[i]) != k by {
            lemma_key_lt(key_of(s[i]), k);
        }
        assert(entries_map(t) =~= entries_map(s).remove(k));
    } else {
        assert(t.drop_last() =~= s.drop_last().remove(idx));
        assert(s.drop_last()[idx] == s[idx]);
        lemma_entries_remove(s.drop_last(), idx);
        assert(t.last() == s.last());
        lemma_key_lt(k, key_of(s.last()));
        assert(entries_map(t) =~= entries_map(s).remove(k));
    }
}

/// A mapping without a key is unchanged by removing it.
pub proof fn lemma_absent_remove(s: Seq<Entry>, k: (Seq<char>, Seq<char>))
    requires
        forall|i: int| 0 <= i < s.len() ==> key_of(s[i]) != k,
    ensures
        entries_map(s).remove(k) == entries_map(s),
{
    lemma_entries_map_domain(s, k);
    assert(entries_map(s).remove(k) =~= entries_map(s));
}

/// The policies of one resource among the entries, in entry order.
pub open spec fn pairs_for(s: Seq<Entry>, rv: Seq<char>) -> Seq<(Seq<char>, ExprS)>
    decreases s.len(),
{
    if s.len() == 0 {
        Seq::empty()
    } else {
        let rest = pairs_for(s.drop_first(), rv);
        if s[0].0@ == rv {
            seq![(s[0].1@, s[0].2@)] + rest
        } else {
            rest
        }
    }
}

/// Every entry of the resource appears among its listed pairs.
pub proof fn lemma_pairs_for_complete(s: Seq<Entry>, rv: Seq<char>, i: int)
    requires
        0 <= i < s.len(),
        s[i].0@ == rv,
    ensures
        exists|k: int|
            0 <= k < pairs_for(s, rv).len() && pairs_for(s, rv)[k] == (s[i].1@, s[i].2@),
    decreases i,
{
    if i == 0 {
        assert(pairs_for(s, rv)[0] == (s[0].1@, s[0].2@));
    } else {
        lemma_pairs_for_complete(s.drop_first(), rv, i - 1);
        let k = choose|k: int|
            0 <= k < pairs_for(s.drop_first(), rv).len() && pairs_for(s.drop_first(), rv)[k] == (
                s[i].1@,
                s[i].2@,
            );
        if s[0].0@ == rv {
            assert(pairs_for(s, rv)[k + 1] == (s[i].1@, s[i].2@));
        } else {
            assert(pairs_for(s, rv)[k] == (s[i].1@, s[i].2@));
        }
    }
}

/// Idempotence law: storing one policy twice leaves the store exactly
/// as storing it once does.
pub proof fn lemma_set_idempotent(
    m: Map<(Seq<char>, Seq<char>), ExprS>,
    k: (Seq<char>, Seq<char>),
    v: ExprS,
)
    ensures
        m.insert(k, v).insert(k, v) == m.insert(k, v),
{
    assert(m.insert(k, v).insert(k, v) =~= m.insert(k, v));
}

/// Idempotence law: removing a key that is not stored changes nothing,
/// and succeeds.
pub proof fn lemma_del_absent(m: Map<(Seq<char>, Seq<char>), ExprS>, k: (Seq<char>, Seq<char>))
    requires
        !m.contains_key(k),
    ensures
        m.remove(k) == m,
{
    assert(m.remove(k) =~= m);
}

/// An in-memory policy store.
#[derive(Debug)]
pub struct Memory {
    inner: Inner,
}

/// The entries behind a `Memory` handle.
#[derive(Debug)]
pub struct Inner {
    entries: Vec<Entry>,
}

impl View for Memory {
    type V = Map<(Seq<char>, Seq<char>), ExprS>;

    closed spec fn view(&self) -> Map<(Seq<char>, Seq<char>), ExprS> {
        entries_map(self.inner.entries@)
    }
}

/// The action/policy models of built output pairs.
pub open spec fn pairs_view(s: Seq<(Action, Policy)>) -> Seq<(Seq<char>, ExprS)> {
    Seq::new(s.len(), |i: int| (s[i].0@, s[i].1@))
}

impl Memory {
    /// The entries stand in strictly ascending key order.
    pub closed spec fn wf(&self) -> bool {
        sorted(self.inner.entries@)
    }

    /// The models of the stored entries, in storage order.
    pub closed spec fn inner_entries(&self) -> Seq<Entry> {
        self.inner.entries@
    }

    /// How many entries the store holds.
    pub open spec fn num_entries(&self) -> int {
        self.inner_entries().len() as int
    }

    /// An empty store.
    pub fn new() -> (r: Memory)
        ensures
            r.wf(),
            r@ == Map::<(Seq<char>, Seq<char>), ExprS>::empty(),
            r.num_entries() == 0,
    {
        Memory { inner: Inner { entries: Vec::new() } }
    }

    /// The index of the first entry whose key is not below `(r, a)`.
    fn lower_bound(&self, r: &Resource, a: &Action) -> (idx: usize)
        requires
            self.wf(),
        ensures
            idx <= self.inner.entries@.len(),
            forall|j: int| 0 <= j < idx ==> key_lt(key_of(self.inner.entries@[j]), (r@, a@)),
            forall|j: int|
                idx <= j < self.inner.entries@.len() ==> !key_lt(
                    key_of(self.inner.entries@[j]),
                    (r@, a@),
                ),
    {
        let n = self.inner.entries.len();
        let mut i: usize = 0;
        while i < n
            invariant
                self.wf(),
                n == self.inner.entries@.len(),
                i <= n,
                forall|j: int| 0 <= j < i ==> key_lt(key_of(self.inner.entries@[j]), (r@, a@)),
            decreases n - i,
        {
            let e = &self.inner.entries[i];
            let cr = cmp_resource(&e.0, r);
            let below = if cr == -1 {
                true
            } else if cr == 0 {
                let ca = cmp_action(&e.1, a);
                ca == -1
            } else {
                false
            };
            if !below {
                proof {
                    let s = self.inner.entries@;
                    assert forall|j: int| i <= j < s.len() implies !key_lt(
                        key_of(s[j]),
                        (r@, a@),
                    ) by {
                        if j > i {
                            if key_lt(key_of(s[j]), (r@, a@)) {
                                lemma_key_lt_trans(
                                    key_of(s[i as int]),
                                    key_of(s[j]),
                                    (r@, a@),
                                );
                            }
                        }
                    }
                }
                return i;
            }
            i = i + 1;
        }
        i
    }

    /// The policy stored under `(r, a)`, if any, as a fresh copy.
    pub fn get_policy(&self, r: &Resource, a: &Action) -> (res: Option<Policy>)
        requires
            self.wf(),
        ensures
            match res {
                Some(p) => self@.contains_key((r@, a@)) && p@ == self@[(r@, a@)],
                None => !self@.contains_key((r@, a@)),
            },
    {
        proof {
            lemma_entries_map_domain(self.inner.entries@, (r@, a@));
        }
        let idx = self.lower_bound(r, a);
        if idx < self.inner.entries.len() {
            let e = &self.inner.entries[idx];
            let cr = cmp_resource(&e.0, r);
            if cr == 0 {
                let ca = cmp_action(&e.1, a);
                if ca == 0 {
                    proof {
                        lemma_entries_map_index(self.inner.entries@, idx as int);
                    }
                    return Some(self.inner.entries[idx].2.dup());
                }
            }
        }
        proof {
            let s = self.inner.entries@;
            if exists|i: int| 0 <= i < s.len() && key_of(s[i]) == (r@, a@) {
                let i = choose|i: int| 0 <= i < s.len() && key_of(s[i]) == (r@, a@);
                lemma_key_lt(key_of(s[i]), (r@, a@));
                assert(i >= idx);
                if i > idx {
                    lemma_key_lt(key_of(s[idx as int]), (r@, a@));
                    lemma_key_lt(key_of(s[idx as int]), key_of(s[i]));
                }
            }
        }
        None
    }

    /// Stores `p` under `(r, a)`, replacing any earlier policy there.
    /// Storing the same policy twice leaves a single entry.
    pub fn set_policy(&mut self, r: &Resource, a: &Action, p: &Policy)
        requires
            old(self).wf(),
        ensures
            final(self).wf(),
            final(self)@ == old(self)@.insert((r@, a@), p@),
            final(self).num_entries() == old(self).num_entries() + (
            if old(self)@.contains_key((r@, a@)) {
                0int
            } else {
                1int
            }),
    {
        proof {
            lemma_entries_map_domain(self.inner.entries@, (r@, a@));
        }
        let idx = self.lower_bound(r, a);
        let mut replace = false;
        if idx < self.inner.entries.len() {
            let e = &self.inner.entries[idx];
            let cr = cmp_resource(&e.0, r);
            if cr == 0 {
                let ca = cmp_action(&e.1, a);
                if ca == 0 {
                    replace = true;
                }
            }
        }
        let en: Entry = (r.dup(), a.dup(), p.dup());
        let ghost olds = self.inner.entries@;
        if replace {
            proof {
                lemma_entries_update(olds, idx as int, en);
                lemma_entries_map_index(olds, idx as int);
            }
            self.inner.entries.set(idx, en);
        } else {
            proof {
                let s = olds;
                assert forall|j: int| idx <= j < s.len() implies key_lt(
                    (r@, a@),
                    key_of(s[j]),
                ) by {
                    lemma_key_lt(key_of(s[j]), (r@, a@));
                    if j == idx {
                        assert(key_of(s[j]) != (r@, a@));
                    } else {
                        lemma_key_lt(key_of(s[idx as int]), (r@, a@));
                        lemma_key_lt(key_of(s[idx as int]), key_of(s[j]));
                        if key_of(s[j]) == (r@, a@) {
                            assert(key_lt(key_of(s[idx as int]), (r@, a@)));
                        }
                    }
                }
                lemma_entries_insert(olds, idx as int, en);
                if exists|i: int| 0 <= i < s.len() && key_of(s[i]) == (r@, a@) {
                    let i = choose|i: int| 0 <= i < s.len() && key_of(s[i]) == (r@, a@);
                    lemma_key_lt((r@, a@), key_of(s[i]));
                    lemma_key_lt(key_of(s[i]), (r@, a@));
                }
            }
            self.inner.entries.insert(idx, en);
        }
    }

    /// Removes the policy under `(r, a)`. Removing an absent key changes
    /// nothing and succeeds.
    pub fn del_policy(&mut self, r: &Resource, a: &Action)
        requires
            old(self).wf(),
        ensures
            final(self).wf(),
            final(self)@ == old(self)@.remove((r@, a@)),
            final(self).num_entries() == old(self).num_entries() - (
            if old(self)@.contains_key((r@, a@)) {
                1int
            } else {
                0int
            }),
    {
        proof {
            lemma_entries_map_domain(self.inner.entries@, (r@, a@));
        }
        let idx = self.lower_bound(r, a);
        let mut found = false;
        if idx < self.inner.entries.len() {
            let e = &self.inner.entries[idx];
            let cr = cmp_resource(&e.0, r);
            if cr == 0 {
                let ca = cmp_action(&e.1, a);
                if ca == 0 {
                    found = true;
                }
            }
        }
        let ghost olds = self.inner.entries@;
        if found {
            proof {
                lemma_entries_remove(olds, idx as int);
                lemma_entries_map_index(olds, idx as int);
            }
            self.inner.entries.remove(idx);
        } else {
            proof {
                let s = olds;
                assert forall|i: int| 0 <= i < s.len() implies key_of(s[i]) != (r@, a@) by {
                    if i < idx {
                        lemma_key_lt(key_of(s[i]), (r@, a@));
                    } else if i > idx {
                        lemma_key_lt(key_of(s[idx as int]), (r@, a@));
                        lemma_key_lt(key_of(s[idx as int]), key_of(s[i]));
                        if key_of(s[i]) == (r@, a@) {
                            assert(key_lt(key_of(s[idx as int]), key_of(s[i])));
                        }
                    }
                }
                lemma_absent_remove(olds, (r@, a@));
            }
        }
    }

    /// All policies under resource `r`, in ascending action order.
    ///
    /// The listing holds exactly the entries whose resource equals `r`,
    /// each action at most once, none of another resource, even one
    /// whose name shares a prefix with `r`.
    pub fn policies(&self, r: &Resource) -> (res: PolicyList)
        requires
            self.wf(),
        ensures
            res@ == pairs_for(self.inner_entries(), r@),
            forall|i: int, j: int| 0 <= i < j < res@.len() ==> lex_lt(res@[i].0, res@[j].0),
            forall|i: int|
                0 <= i < res@.len() ==> self@.contains_key((r@, res@[i].0)) && self@[(
                    r@,
                    res@[i].0,
                )] == res@[i].1,
            forall|a: Seq<char>|
                self@.contains_key((r@, a)) ==> exists|i: int|
                    0 <= i < res@.len() && res@[i].0 == a,
    {
        let mut out: Vec<(Action, Policy)> = Vec::new();
        let ghost mut src: Seq<int> = Seq::empty();
        let n = self.inner.entries.len();
        let mut i: usize = 0;
        let ghost s = self.inner.entries@;
        proof {
            assert(s.skip(0) =~= s);
        }
        while i < n
            invariant
                self.wf(),
                s == self.inner.entries@,
                n == s.len(),
                i <= n,
                out@.len() == pairs_view(out@).len(),
                src.len() == out@.len(),
                pairs_for(s, r@) == pairs_view(out@) + pairs_for(s.skip(i as int), r@),
                forall|p: int| 0 <= p < src.len() ==> 0 <= #[trigger] src[p] < i,
                forall|p: int|
                    0 <= p < src.len() ==> s[#[trigger] src[p]].0@ == r@ && pairs_view(out@)[p]
                        == (s[src[p]].1@, s[src[p]].2@),
                forall|p: int, q: int| 0 <= p < q < src.len() ==> src[p] < src[q],
            decreases n - i,
        {
            let e = &self.inner.entries[i];
            let cr = cmp_resource(&e.0, r);
            proof {
                assert(s.skip(i as int)[0] == s[i as int]);
                assert(s.skip(i as int).drop_first() =~= s.skip(i as int + 1));
            }
            if cr == 0 {
                let ghost oldout = out@;
                out.push((e.1.dup(), e.2.dup()));
                proof {
                    src = src.push(i as int);
                    assert(pairs_view(out@) =~= pairs_view(oldout).push(
                        (s[i as int].1@, s[i as int].2@),
                    ));
                    assert(pairs_view(oldout) + pairs_for(s.skip(i as int), r@) =~= pairs_view(
                        out@,
                    ) + pairs_for(s.skip(i as int + 1), r@));
                }
            }
            i = i + 1;
        }
        proof {
            assert(s.skip(n as int) =~= Seq::<Entry>::empty());
            assert(pairs_view(out@) + Seq::<(Seq<char>, ExprS)>::empty() =~= pairs_view(out@));
            assert(pairs_for(s, r@) == pairs_view(out@));
            assert forall|p: int, q: int| 0 <= p < q < out@.len() implies lex_lt(
                pairs_view(out@)[p].0,
                pairs_view(out@)[q].0,
            ) by {
                let jp = src[p];
                let jq = src[q];
                assert(key_lt(key_of(s[jp]), key_of(s[jq])));
                lemma_lex_lt_trichotomy(s[jp].0@, s[jq].0@);
            }
            assert forall|p: int| 0 <= p < out@.len() implies entries_map(s).contains_key(
                (r@, pairs_view(out@)[p].0),
            ) && entries_map(s)[(r@, pairs_view(out@)[p].0)] == pairs_view(out@)[p].1 by {
                lemma_entries_map_index(s, src[p]);
            }
            assert forall|a: Seq<char>| entries_map(s).contains_key((r@, a)) implies exists|
                i2: int,
            |
                0 <= i2 < out@.len() && pairs_view(out@)[i2].0 == a by {
                lemma_entries_map_domain(s, (r@, a));
                let j = choose|j: int| 0 <= j < s.len() && key_of(s[j]) == (r@, a);
                lemma_pairs_for_complete(s, r@, j);
                let k = choose|k: int|
                    0 <= k < pairs_for(s, r@).len() && pairs_for(s, r@)[k] == (
                        s[j].1@,
                        s[j].2@,
                    );
                assert(pairs_view(out@)[k].0 == a);
            }
        }
        PolicyList::new(out)
    }
}

} // verus!
