//! Storage for authenticated identity attributes: a mapping from
//! `(identity, attribute)` to raw bytes, with an in-memory and a
//! database-backed implementation behind one tagged dispatch type.

use vstd::prelude::*;

verus! {

use crate::error::StorageError;
use crate::lmdb::LmdbStorage;
use crate::strings::str_eq;

/// One stored attribute value under its (identity, attribute) key.
type AttrEntry = (String, String, Vec<u8>);

/// Pairwise distinct (identity, attribute) keys.
pub open spec fn distinct_attr_keys(s: Seq<AttrEntry>) -> bool {
    forall|i: int, j: int|
        0 <= i < j < s.len() ==> ((#[trigger] s[i]).0@, s[i].1@) != ((#[trigger] s[j]).0@, s[j].1@)
}

/// The mapping that a sequence of attribute entries denotes.
pub open spec fn attr_map(s: Seq<AttrEntry>) -> Map<(Seq<char>, Seq<char>), Seq<u8>>
    decreases s.len(),
{
    if s.len() == 0 {
        Map::empty()
    } else {
        attr_map(s.drop_last()).insert((s.last().0@, s.last().1@), s.last().2@)
    }
}

/// A key is in the mapping exactly when some entry carries it.
pub proof fn lemma_attr_map_domain(s: Seq<AttrEntry>, k: (Seq<char>, Seq<char>))
    ensures
        attr_map(s).contains_key(k) <==> exists|i: int|
            0 <= i < s.len() && ((#[trigger] s[i]).0@, s[i].1@) == k,
    decreases s.len(),
{
    if s.len() > 0 {
        lemma_attr_map_domain(s.drop_last(), k);
        if attr_map(s).contains_key(k) && (s.last().0@, s.last().1@) != k {
            let i = choose|i: int|
                0 <= i < s.drop_last().len() && ((#[trigger] s.drop_last()[i]).0@,
                s.drop_last()[i].1@) == k;
            assert((s[i].0@, s[i].1@) == k);
        }
        if exists|i: int| 0 <= i < s.len() && ((#[trigger] s[i]).0@, s[i].1@) == k {
            let i = choose|i: int| 0 <= i < s.len() && ((#[trigger] s[i]).0@, s[i].1@) == k;
            if i < s.len() - 1 {
                assert((s.drop_last()[i].0@, s.drop_last()[i].1@) == k);
            }
        }
    }
}

/// Under distinct keys, each entry gives its key's value.
pub proof fn lemma_attr_map_index(s: Seq<AttrEntry>, i: int)
    requires
        distinct_attr_keys(s),
        0 <= i < s.len(),
    ensures
        attr_map(s).contains_key((s[i].0@, s[i].1@)),
        attr_map(s)[(s[i].0@, s[i].1@)] == s[i].2@,
    decreases s.len(),
{
    if i < s.len() - 1 {
        assert(s.drop_last()[i] == s[i]);
        lemma_attr_map_index(s.drop_last(), i);
    }
}

/// An in-memory attribute store.
#[derive(Debug)]
pub struct InMemoryStorage {
    entries: Vec<AttrEntry>,
}

impl View for InMemoryStorage {
    type V = Map<(Seq<char>, Seq<char>), Seq<u8>>;

    closed spec fn view(&self) -> Map<(Seq<char>, Seq<char>), Seq<u8>> {
        attr_map(self.entries@)
    }
}

impl InMemoryStorage {
    /// No two entries carry one key.
    pub closed spec fn wf(&self) -> bool {
        distinct_attr_keys(self.entries@)
    }

    /// An empty store.
    pub fn new() -> (r: InMemoryStorage)
        ensures
            r.wf(),
            r@ == Map::<(Seq<char>, Seq<char>), Seq<u8>>::empty(),
    {
        InMemoryStorage { entries: Vec::new() }
    }

    /// The index of the entry under `(id, key)`, if any.
    fn find(&self, id: &str, key: &str) -> (r: Option<usize>)
        ensures
            match r {
                Some(i) => i < self.entries@.len() && self.entries@[i as int].0@ == id@
                    && self.entries@[i as int].1@ == key@,
                None => forall|i: int|
                    0 <= i < self.entries@.len() ==> ((#[trigger] self.entries@[i]).0@,
                    self.entries@[i].1@) != (id@, key@),
            },
    {
        let mut i: usize = 0;
        while i < self.entries.len()
            invariant
                i <= self.entries@.len(),
                forall|j: int|
                    0 <= j < i ==> ((#[trigger] self.entries@[j]).0@, self.entries@[j].1@) != (
                        id@,
                        key@,
                    ),
            decreases self.entries@.len() - i,
        {
            if str_eq(self.entries[i].0.as_str(), id) && str_eq(
                self.entries[i].1.as_str(),
                key,
            ) {
                return Some(i);
            }
            i = i + 1;
        }
        None
    }

    /// The value under `(id, key)`, if any.
    pub fn get(&self, id: &str, key: &str) -> (r: Option<Vec<u8>>)
        requires
            self.wf(),
        ensures
            match r {
                Some(v) => self@.contains_key((id@, key@)) && v@ == self@[(id@, key@)],
                None => !self@.contains_key((id@, key@)),
            },
    {
        proof {
            lemma_attr_map_domain(self.entries@, (id@, key@));
        }
        match self.find(id, key) {
            Some(i) => {
                proof {
                    lemma_attr_map_index(self.entries@, i as int);
                }
                let mut copy: Vec<u8> = Vec::new();
                let mut src = vstd::slice::slice_to_vec(self.entries[i].2.as_slice());
                copy.append(&mut src);
                proof {
                    assert(copy@ =~= self.entries@[i as int].2@);
                }
                Some(copy)
            },
            None => None,
        }
    }

    /// Binds `(id, key)` to `value`, replacing any earlier value.
    pub fn set(&mut self, id: &str, key: &str, value: Vec<u8>)
        requires
            old(self).wf(),
        ensures
            final(self).wf(),
            final(self)@ == old(self)@.insert((id@, key@), value@),
    {
        let entry = (id.to_owned(), key.to_owned(), value);
        match self.find(id, key) {
            Some(i) => {
                proof {
                    lemma_attr_update(self.entries@, i as int, entry);
                }
                self.entries.set(i, entry);
            },
            None => {
                proof {
                    assert(self.entries@.push(entry).drop_last() =~= self.entries@);
                }
                self.entries.push(entry);
            },
        }
    }

    /// Removes the value under `(id, key)`; removing an absent key is a
    /// no-op.
    pub fn del(&mut self, id: &str, key: &str)
        requires
            old(self).wf(),
        ensures
            final(self).wf(),
            final(self)@ == old(self)@.remove((id@, key@)),
    {
        proof {
            lemma_attr_map_domain(self.entries@, (id@, key@));
        }
        match self.find(id, key) {
            Some(i) => {
                proof {
                    lemma_attr_remove(self.entries@, i as int);
                }
                self.entries.remove(i);
            },
            None => {
                proof {
                    assert(attr_map(self.entries@).remove((id@, key@)) =~= attr_map(
                        self.entries@,
                    ));
                }
            },
        }
    }

    /// Every attribute of one identity, as (attribute, value) pairs, in
    /// entry order.
    ///
    /// The listing is the identity's whole attribute set: every pair it
    /// holds is stored, every stored attribute of the identity appears,
    /// and no attribute name appears twice.
    pub fn attributes_for(&self, id: &str) -> (r: Vec<(String, Vec<u8>)>)
        requires
            self.wf(),
        ensures
            forall|p: int|
                0 <= p < r@.len() ==> self@.contains_key((id@, (#[trigger] r@[p]).0@)) && self@[(
                    id@,
                    r@[p].0@,
                )] == r@[p].1@,
            forall|k: Seq<char>|
                self@.contains_key((id@, k)) ==> exists|p: int|
                    0 <= p < r@.len() && (#[trigger] r@[p]).0@ == k && r@[p].1@ == self@[(
                        id@,
                        k,
                    )],
            forall|p: int, q: int| 0 <= p < q < r@.len() ==> r@[p].0@ != r@[q].0@,
    {
        let ghost s = self.entries@;
        let mut out: Vec<(String, Vec<u8>)> = Vec::new();
        let ghost mut src: Seq<int> = Seq::empty();
        let mut i: usize = 0;
        while i < self.entries.len()
            invariant
                self.wf(),
                s == self.entries@,
                i <= s.len(),
                src.len() == out@.len(),
                forall|p: int| 0 <= p < src.len() ==> 0 <= #[trigger] src[p] < i,
                forall|p: int|
                    0 <= p < src.len() ==> s[#[trigger] src[p]].0@ == id@ && out@[p].0@
                        == s[src[p]].1@ && out@[p].1@ == s[src[p]].2@,
                forall|p: int, q: int| 0 <= p < q < src.len() ==> src[p] < src[q],
                forall|j: int|
                    0 <= j < i && (#[trigger] s[j]).0@ == id@ ==> exists|p: int|
                        0 <= p < src.len() && #[trigger] src[p] == j,
            decreases s.len() - i,
        {
            if str_eq(self.entries[i].0.as_str(), id) {
                let key = self.entries[i].1.clone();
                let mut value: Vec<u8> = Vec::new();
                let mut copy = vstd::slice::slice_to_vec(self.entries[i].2.as_slice());
                value.append(&mut copy);
                proof {
                    assert(value@ =~= s[i as int].2@);
                }
                out.push((key, value));
                proof {
                    let oldsrc = src;
                    src = src.push(i as int);
                    assert(src[src.len() - 1] == i as int);
                    assert(forall|p: int| 0 <= p < oldsrc.len() ==> src[p] == oldsrc[p]);
                    assert forall|j: int|
                        0 <= j < i + 1 && (#[trigger] s[j]).0@ == id@ implies exists|p: int|
                        0 <= p < src.len() && #[trigger] src[p] == j by {
                        if j < i {
                            let p = choose|p: int|
                                0 <= p < oldsrc.len() && #[trigger] oldsrc[p] == j;
                            assert(src[p] == j);
                        } else {
                            assert(src[src.len() - 1] == j);
                        }
                    }
                }
            }
            i = i + 1;
        }
        proof {
            assert forall|p: int|
                0 <= p < out@.len() implies attr_map(s).contains_key(
                (id@, (#[trigger] out@[p]).0@),
            ) && attr_map(s)[(id@, out@[p].0@)] == out@[p].1@ by {
                lemma_attr_map_index(s, src[p]);
            }
            assert forall|k: Seq<char>| attr_map(s).contains_key((id@, k)) implies exists|
                p: int,
            |
                0 <= p < out@.len() && (#[trigger] out@[p]).0@ == k && out@[p].1@ == attr_map(
                    s,
                )[(id@, k)] by {
                lemma_attr_map_domain(s, (id@, k));
                let j = choose|j: int| 0 <= j < s.len() && ((#[trigger] s[j]).0@, s[j].1@) == (
                    id@,
                    k,
                );
                let p = choose|p: int| 0 <= p < src.len() && #[trigger] src[p] == j;
                lemma_attr_map_index(s, j);
                assert(out@[p].0@ == k && out@[p].1@ == attr_map(s)[(id@, k)]);
            }
            assert forall|p: int, q: int| 0 <= p < q < out@.len() implies out@[p].0@
                != out@[q].0@ by {
                let jp = src[p];
                let jq = src[q];
                assert((s[jp].0@, s[jp].1@) != (s[jq].0@, s[jq].1@));
            }
        }
        out
    }
}

/// Replacing the entry that carries a key updates the mapping there.
proof fn lemma_attr_update(s: Seq<AttrEntry>, i: int, e: AttrEntry)
    requires
        distinct_attr_keys(s),
        0 <= i < s.len(),
        (e.0@, e.1@) == (s[i].0@, s[i].1@),
    ensures
        distinct_attr_keys(s.update(i, e)),
        attr_map(s.update(i, e)) =~= attr_map(s).insert((e.0@, e.1@), e.2@),
    decreases s.len(),
{
    let t = s.update(i, e);
    assert forall|p: int, q: int| 0 <= p < q < t.len() implies ((#[trigger] t[p]).0@, t[p].1@)
        != ((#[trigger] t[q]).0@, t[q].1@) by {
        assert((t[p].0@, t[p].1@) == (s[p].0@, s[p].1@));
        assert((t[q].0@, t[q].1@) == (s[q].0@, s[q].1@));
    }
    if i == s.len() - 1 {
        assert(t.drop_last() =~= s.drop_last());
    } else {
        assert(t.drop_last() =~= s.drop_last().update(i, e));
        assert(s.drop_last()[i] == s[i]);
        lemma_attr_update(s.drop_last(), i, e);
        assert(t.last() == s.last());
        assert((s[i].0@, s[i].1@) != (s.last().0@, s.last().1@));
    }
}

/// Removing the entry that carries a key removes it from the mapping.
proof fn lemma_attr_remove(s: Seq<AttrEntry>, i: int)
    requires
        distinct_attr_keys(s),
        0 <= i < s.len(),
    ensures
        distinct_attr_keys(s.remove(i)),
        attr_map(s.remove(i)) =~= attr_map(s).remove((s[i].0@, s[i].1@)),
    decreases s.len(),
{
    let t = s.remove(i);
    let k = (s[i].0@, s[i].1@);
    assert forall|p: int, q: int| 0 <= p < q < t.len() implies ((#[trigger] t[p]).0@, t[p].1@)
        != ((#[trigger] t[q]).0@, t[q].1@) by {
        if p < i {
            assert(t[p] == s[p]);
        } else {
            assert(t[p] == s[p + 1]);
        }
        if q < i {
            assert(t[q] == s[q]);
        } else {
            assert(t[q] == s[q + 1]);
        }
    }
    if i == s.len() - 1 {
        assert(t =~= s.drop_last());
        lemma_attr_map_domain(t, k);
        assert forall|p: int| 0 <= p < t.len() implies ((#[trigger] t[p]).0@, t[p].1@) != k by {}
        assert(attr_map(t) =~= attr_map(s).remove(k));
    } else {
        assert(t.drop_last() =~= s.drop_last().remove(i));
        assert(s.drop_last()[i] == s[i]);
        lemma_attr_remove(s.drop_last(), i);
        assert(t.last() == s.last());
        assert((s[i].0@, s[i].1@) != (s.last().0@, s.last().1@));
        assert(attr_map(t) =~= attr_map(s).remove(k));
    }
}

/// Storage for authenticated attribute data: one of the two backends.
pub enum AuthenticatedStorageImpl {
    /// The database-backed store.
    DatabaseImpl(LmdbStorage),
    /// The in-memory store.
    InMemoryImpl(InMemoryStorage),
}

impl AuthenticatedStorageImpl {
    /// The in-memory backend is well formed; the database backend has
    /// no in-memory state to govern.
    pub open spec fn wf(&self) -> bool {
        match self {
            AuthenticatedStorageImpl::DatabaseImpl(_) => true,
            AuthenticatedStorageImpl::InMemoryImpl(m) => m.wf(),
        }
    }

    /// The stored mapping, where this is the in-memory backend.
    pub open spec fn mem_view(&self) -> Option<Map<(Seq<char>, Seq<char>), Seq<u8>>> {
        match self {
            AuthenticatedStorageImpl::DatabaseImpl(_) => None,
            AuthenticatedStorageImpl::InMemoryImpl(m) => Some(m@),
        }
    }

    /// The value under `(id, key)`, if any. For the in-memory backend
    /// the answer is exactly the stored mapping's.
    pub fn get(&self, id: &str, key: &str) -> (r: Result<Option<Vec<u8>>, StorageError>)
        requires
            self.wf(),
        ensures
            self.mem_view() matches Some(m) ==> match r {
                Ok(Some(v)) => m.contains_key((id@, key@)) && v@ == m[(id@, key@)],
                Ok(None) => !m.contains_key((id@, key@)),
                Err(_) => false,
            },
    {
        match self {
            AuthenticatedStorageImpl::DatabaseImpl(s) => s.get(id, key),
            AuthenticatedStorageImpl::InMemoryImpl(m) => Ok(m.get(id, key)),
        }
    }

    /// Binds `(id, key)` to `value`.
    pub fn set(&mut self, id: &str, key: &str, value: Vec<u8>) -> (r: Result<(), StorageError>)
        requires
            old(self).wf(),
        ensures
            final(self).wf(),
            old(self).mem_view() matches Some(m) ==> final(self).mem_view() == Some(
                m.insert((id@, key@), value@),
            ) && r is Ok,
    {
        match self {
            AuthenticatedStorageImpl::DatabaseImpl(s) => s.set(id, key, value.as_slice()),
            AuthenticatedStorageImpl::InMemoryImpl(m) => {
                m.set(id, key, value);
                Ok(())
            },
        }
    }

    /// Removes the value under `(id, key)`.
    pub fn del(&mut self, id: &str, key: &str) -> (r: Result<(), StorageError>)
        requires
            old(self).wf(),
        ensures
            final(self).wf(),
            old(self).mem_view() matches Some(m) ==> final(self).mem_view() == Some(
                m.remove((id@, key@)),
            ) && r is Ok,
    {
        match self {
            AuthenticatedStorageImpl::DatabaseImpl(s) => s.del(id, key),
            AuthenticatedStorageImpl::InMemoryImpl(m) => {
                m.del(id, key);
                Ok(())
            },
        }
    }
}

} // verus!
