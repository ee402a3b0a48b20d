//! The evaluation environment: a flat mapping from dotted identifier to
//! value. Keys have no scope structure; `put` overwrites; a per-request
//! copy can be taken and grown without affecting the one it came from.

use vstd::prelude::*;

verus! {

use crate::expr::Expr;
use crate::expr::ExprS;
use crate::strings::str_eq;

/// Pairwise distinct keys, compared by their characters.
pub open spec fn distinct_keys(s: Seq<(String, Expr)>) -> bool {
    forall|i: int, j: int| 0 <= i < j < s.len() ==> s[i].0@ != s[j].0@
}

/// The mapping that a sequence of bindings denotes; later entries win.
pub open spec fn map_of(s: Seq<(String, Expr)>) -> Map<Seq<char>, ExprS>
    decreases s.len(),
{
    if s.len() == 0 {
        Map::empty()
    } else {
        map_of(s.drop_last()).insert(s.last().0@, s.last().1@)
    }
}

/// A key is in the mapping exactly when some entry carries it.
pub proof fn lemma_map_of_domain(s: Seq<(String, Expr)>, k: Seq<char>)
    ensures
        map_of(s).contains_key(k) <==> exists|i: int| 0 <= i < s.len() && s[i].0@ == k,
    decreases s.len(),
{
    if s.len() > 0 {
        lemma_map_of_domain(s.drop_last(), k);
        if map_of(s).contains_key(k) && s.last().0@ != k {
            let i = choose|i: int| 0 <= i < s.drop_last().len() && s.drop_last()[i].0@ == k;
            assert(s[i].0@ == k);
        }
        if exists|i: int| 0 <= i < s.len() && s[i].0@ == k {
            let i = choose|i: int| 0 <= i < s.len() && s[i].0@ == k;
            if i < s.len() - 1 {
                assert(s.drop_last()[i].0@ == k);
            }
        }
    }
}

/// Under distinct keys, the entry that carries a key gives its value.
pub proof fn lemma_map_of_index(s: Seq<(String, Expr)>, i: int)
    requires
        distinct_keys(s),
        0 <= i < s.len(),
    ensures
        map_of(s).contains_key(s[i].0@),
        map_of(s)[s[i].0@] == s[i].1@,
    decreases s.len(),
{
    if i == s.len() - 1 {
    } else {
        assert(s.drop_last()[i] == s[i]);
        lemma_map_of_index(s.drop_last(), i);
        assert(s[i].0@ != s.last().0@);
    }
}

/// Appending a binding inserts it into the mapping.
pub proof fn lemma_map_of_push(s: Seq<(String, Expr)>, p: (String, Expr))
    ensures
        map_of(s.push(p)) == map_of(s).insert(p.0@, p.1@),
{
    assert(s.push(p).drop_last() =~= s);
    assert(s.push(p).last() == p);
}

/// Overwriting the entry that carries a key updates the mapping at that
/// key alone.
pub proof fn lemma_map_of_update(s: Seq<(String, Expr)>, i: int, p: (String, Expr))
    requires
        distinct_keys(s),
        0 <= i < s.len(),
        p.0@ == s[i].0@,
    ensures
        map_of(s.update(i, p)) =~= map_of(s).insert(p.0@, p.1@),
    decreases s.len(),
{
    let t = s.update(i, p);
    if i == s.len() - 1 {
        assert(t.drop_last() =~= s.drop_last());
        assert(t.last() == p);
        assert(map_of(t) =~= map_of(s).insert(p.0@, p.1@));
    } else {
        assert(t.drop_last() =~= s.drop_last().update(i, p));
        assert(s.drop_last()[i] == s[i]);
        lemma_map_of_update(s.drop_last(), i, p);
        assert(t.last() == s.last());
        assert(s[i].0@ != s.last().0@);
        assert(map_of(t) =~= map_of(s).insert(p.0@, p.1@));
    }
}

/// A flat mapping from dotted identifier to value.
#[derive(Debug)]
pub struct Env {
    entries: Vec<(String, Expr)>,
}

impl View for Env {
    type V = Map<Seq<char>, ExprS>;

    closed spec fn view(&self) -> Map<Seq<char>, ExprS> {
        map_of(self.entries@)
    }
}

impl Env {
    /// The environment holds no two bindings for one key.
    pub closed spec fn wf(&self) -> bool {
        distinct_keys(self.entries@)
    }

    /// The empty environment.
    pub fn new() -> (r: Env)
        ensures
            r.wf(),
            r@ == Map::<Seq<char>, ExprS>::empty(),
    {
        Env { entries: Vec::new() }
    }

    /// The index of the entry that carries `k`, if any.
    fn find(&self, k: &str) -> (r: Option<usize>)
        ensures
            match r {
                Some(i) => i < self.entries@.len() && self.entries@[i as int].0@ == k@,
                None => forall|i: int|
                    0 <= i < self.entries@.len() ==> self.entries@[i].0@ != k@,
            },
    {
        let mut i: usize = 0;
        while i < self.entries.len()
            invariant
                i <= self.entries@.len(),
                forall|j: int| 0 <= j < i ==> self.entries@[j].0@ != k@,
            decreases self.entries@.len() - i,
        {
            if str_eq(self.entries[i].0.as_str(), k) {
                return Some(i);
            }
            i = i + 1;
        }
        None
    }

    /// Binds `k` to `v`, replacing any earlier binding.
    pub fn put(&mut self, k: &str, v: Expr)
        requires
            old(self).wf(),
        ensures
            final(self).wf(),
            final(self)@ == old(self)@.insert(k@, v@),
    {
        match self.find(k) {
            Some(i) => {
                let key = k.to_owned();
                proof {
                    lemma_map_of_update(self.entries@, i as int, (key, v));
                }
                self.entries.set(i, (key, v));
            },
            None => {
                let key = k.to_owned();
                proof {
                    lemma_map_of_push(self.entries@, (key, v));
                }
                self.entries.push((key, v));
            },
        }
    }

    /// The value bound to `k`, if any, as a fresh copy.
    pub fn get(&self, k: &str) -> (r: Option<Expr>)
        requires
            self.wf(),
        ensures
            match r {
                Some(e) => self@.contains_key(k@) && e@ == self@[k@],
                None => !self@.contains_key(k@),
            },
    {
        proof {
            lemma_map_of_domain(self.entries@, k@);
        }
        match self.find(k) {
            Some(i) => {
                proof {
                    lemma_map_of_index(self.entries@, i as int);
                }
                Some(self.entries[i].1.deep_clone())
            },
            None => None,
        }
    }

    /// Whether `k` is bound.
    pub fn contains(&self, k: &str) -> (r: bool)
        requires
            self.wf(),
        ensures
            r == self@.contains_key(k@),
    {
        proof {
            lemma_map_of_domain(self.entries@, k@);
        }
        match self.find(k) {
            Some(_) => true,
            None => false,
        }
    }

    /// An independent copy: changing it never affects this environment.
    pub fn clone_env(&self) -> (r: Env)
        requires
            self.wf(),
        ensures
            r.wf(),
            r@ == self@,
    {
        let mut out: Vec<(String, Expr)> = Vec::new();
        let mut i: usize = 0;
        while i < self.entries.len()
            invariant
                i <= self.entries@.len(),
                out@.len() == i,
                forall|j: int|
                    0 <= j < i ==> out@[j].0@ == self.entries@[j].0@ && out@[j].1@
                        == self.entries@[j].1@,
            decreases self.entries@.len() - i,
        {
            let key = self.entries[i].0.clone();
            let val = self.entries[i].1.deep_clone();
            out.push((key, val));
            i = i + 1;
        }
        proof {
            lemma_map_of_views(out@, self.entries@);
        }
        Env { entries: out }
    }
}

/// Two binding sequences with pointwise equal key and value models denote
/// the same mapping.
pub proof fn lemma_map_of_views(a: Seq<(String, Expr)>, b: Seq<(String, Expr)>)
    requires
        a.len() == b.len(),
        forall|i: int| 0 <= i < a.len() ==> a[i].0@ == b[i].0@ && a[i].1@ == b[i].1@,
    ensures
        map_of(a) == map_of(b),
        distinct_keys(b) ==> distinct_keys(a),
    decreases a.len(),
{
    if a.len() > 0 {
        lemma_map_of_views(a.drop_last(), b.drop_last());
        assert(map_of(a) =~= map_of(b));
    } else {
        assert(map_of(a) =~= map_of(b));
    }
}

} // verus!
