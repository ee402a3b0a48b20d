//! The disk-backed policy and attribute store: a log-structured
//! key-value database. Keys are `"<resource>:<action>"` — or
//! `"<identity>:<attribute>"` for the attribute side — and values are
//! binary policy records or raw attribute bytes. The database calls go
//! through trusted wrappers; the key encoding, the range-scan
//! termination and the record decoding are verified.

use vstd::prelude::*;

verus! {

use crate::codec::dec_policy;
use crate::codec::decode_policy;
use crate::codec::encode_policy;
use crate::error::StorageError;
use crate::expr::ExprS;
use crate::policy::Policy;
use crate::policy::PolicyList;
use crate::strings::string_from_utf8;
use crate::types::Action;
use crate::types::Resource;
use lmdb::Cursor;
use lmdb::Transaction;
use vstd::utf8::decode_utf8;
use vstd::utf8::encode_utf8;
use vstd::utf8::valid_utf8;

/// Strict lexicographic order on byte strings.
pub open spec fn bytes_lt(a: Seq<u8>, b: Seq<u8>) -> bool
    decreases a.len(),
{
    if b.len() == 0 {
        false
    } else if a.len() == 0 {
        true
    } else if a[0] < b[0] {
        true
    } else if a[0] > b[0] {
        false
    } else {
        bytes_lt(a.drop_first(), b.drop_first())
    }
}

#[verifier::external_type_specification]
#[verifier::external_body]
pub struct ExEnvironment(lmdb::Environment);

#[verifier::external_type_specification]
#[verifier::external_body]
pub struct ExDatabase(lmdb::Database);

/// A handle to one database file.
pub struct LmdbStorage {
    /// The database environment.
    env: lmdb::Environment,
    /// The key-value map inside it.
    map: lmdb::Database,
}

impl LmdbStorage {
    /// Relies on `lmdb::Environment::open` and `create_db`: opens the
    /// single-file database at `path` and its one named map.
    #[verifier::external_body]
    pub fn new(path: &str) -> (r: Result<LmdbStorage, StorageError>)
    {
        let env = lmdb::Environment::new().set_flags(
            lmdb::EnvironmentFlags::NO_SUB_DIR | lmdb::EnvironmentFlags::NO_TLS,
        ).set_max_dbs(1).open(std::path::Path::new(path)).map_err(
            |e| StorageError { cause: format!("{e}") },
        )?;
        let map = env.create_db(Some("map"), lmdb::DatabaseFlags::empty()).map_err(
            |e| StorageError { cause: format!("{e}") },
        )?;
        Ok(LmdbStorage { env, map })
    }

    /// Relies on `lmdb::RoTransaction::get`: the value stored under the
    /// key, if any; `NotFound` is a normal miss.
    #[verifier::external_body]
    fn get_raw(&self, key: &str) -> (r: Result<Option<Vec<u8>>, StorageError>)
    {
        let tx = self.env.begin_ro_txn().map_err(|e| StorageError { cause: format!("{e}") })?;
        match tx.get(self.map, &key) {
            Ok(value) => Ok(Some(Vec::from(value))),
            Err(lmdb::Error::NotFound) => Ok(None),
            Err(e) => Err(StorageError { cause: format!("{e}") }),
        }
    }

    /// Relies on `lmdb::RwTransaction::put` and `commit`: stores the
    /// value under the key.
    #[verifier::external_body]
    pub fn write(&self, key: &str, value: &[u8]) -> (r: Result<(), StorageError>)
    {
        let mut tx = self.env.begin_rw_txn().map_err(
            |e| StorageError { cause: format!("{e}") },
        )?;
        tx.put(self.map, &key, &value, lmdb::WriteFlags::empty()).map_err(
            |e| StorageError { cause: format!("{e}") },
        )?;
        tx.commit().map_err(|e| StorageError { cause: format!("{e}") })
    }

    /// Relies on `lmdb::RwTransaction::del` and `commit`: removes the
    /// key; removing an absent key succeeds.
    #[verifier::external_body]
    pub fn delete(&self, key: &str) -> (r: Result<(), StorageError>)
    {
        let mut tx = self.env.begin_rw_txn().map_err(
            |e| StorageError { cause: format!("{e}") },
        )?;
        match tx.del(self.map, &key, None) {
            Ok(()) | Err(lmdb::Error::NotFound) => {},
            Err(e) => {
                return Err(StorageError { cause: format!("{e}") });
            },
        }
        tx.commit().map_err(|e| StorageError { cause: format!("{e}") })
    }

    /// Relies on `lmdb::Cursor::get` with a range op, `Cursor::iter`
    /// and the documented lexicographic byte order of lmdb keys: every
    /// entry at or after `start`, ascending; none at or after gives an
    /// empty run. That the run is every such entry rests on that
    /// documentation alone: with no model of the database's contents,
    /// the clauses below cannot state completeness.
    #[verifier::external_body]
    fn scan_from(&self, start: &str) -> (r: Result<Vec<(Vec<u8>, Vec<u8>)>, StorageError>)
        ensures
            match r {
                Ok(entries) => (forall|i: int, j: int|
                    0 <= i < j < entries@.len() ==> bytes_lt(
                        (#[trigger] entries@[i]).0@,
                        (#[trigger] entries@[j]).0@,
                    )) && (forall|i: int|
                    0 <= i < entries@.len() ==> !bytes_lt(
                        (#[trigger] entries@[i]).0@,
                        vstd::utf8::encode_utf8(start@),
                    )),
                Err(_) => true,
            },
    {
        let err = |e| StorageError { cause: format!("{e}") };
        let tx = self.env.begin_ro_txn().map_err(err)?;
        let mut cur = tx.open_ro_cursor(self.map).map_err(err)?;
        let mut out = Vec::new();
        match cur.get(Some(start.as_bytes()), None, lmdb_sys::MDB_SET_RANGE) {
            Ok((Some(k), v)) => out.push((Vec::from(k), Vec::from(v))),
            Err(lmdb::Error::NotFound) => return Ok(out),
            r => return Err(err(r.err().unwrap_or(lmdb::Error::Invalid))),
        }
        for (k, v) in cur.iter() {
            out.push((Vec::from(k), Vec::from(v)));
        }
        Ok(out)
    }
}

/// The persistent key of a policy: `"<resource>:<action>"`.
pub fn policy_key(r: &Resource, a: &Action) -> (key: String)
    ensures
        key@ == r@ + ":"@ + a@,
{
    let mut key = String::from_str(r.as_str());
    key.append(":");
    key.append(a.as_str());
    key
}

/// The scan prefix of a resource: `"<resource>:"`.
pub fn resource_prefix(r: &Resource) -> (key: String)
    ensures
        key@ == r@ + ":"@,
{
    let mut key = String::from_str(r.as_str());
    key.append(":");
    key
}

/// The index of the first `:` in `s`, or its length if there is none.
pub open spec fn find_colon(s: Seq<char>, i: int) -> int
    decreases s.len() - i,
{
    if i < 0 || i >= s.len() {
        s.len() as int
    } else if s[i] == ':' {
        i
    } else {
        find_colon(s, i + 1)
    }
}

/// The policies a scanned entry run holds for resource `rv`.
///
/// Entries are read in order: a key that is not UTF-8 or whose value is
/// not a policy record fails the whole listing; a key with no `:` is
/// malformed and skipped; the first key whose resource part differs
/// from `rv` ends the listing — later keys cannot match again, since
/// the scan is ordered.
pub open spec fn scan_pairs(entries: Seq<(Seq<u8>, Seq<u8>)>, rv: Seq<char>) -> Result<
    Seq<(Seq<char>, ExprS)>,
    (),
>
    decreases entries.len(),
{
    if entries.len() == 0 {
        Ok(Seq::empty())
    } else {
        let k = entries[0].0;
        let v = entries[0].1;
        if !valid_utf8(k) {
            Err(())
        } else {
            let ks = decode_utf8(k);
            let c = find_colon(ks, 0);
            if c >= ks.len() {
                scan_pairs(entries.drop_first(), rv)
            } else if ks.take(c) != rv {
                Ok(Seq::empty())
            } else {
                match dec_policy(v) {
                    Option::None => Err(()),
                    Option::Some(e) => match scan_pairs(entries.drop_first(), rv) {
                        Ok(rest) => Ok(seq![(ks.skip(c + 1), e)] + rest),
                        Err(er) => Err(er),
                    },
                }
            }
        }
    }
}

/// Computes `find_colon` over the characters of a key.
fn find_colon_exec(v: &Vec<char>, i: usize) -> (r: usize)
    requires
        i <= v@.len(),
    ensures
        r as int == find_colon(v@, i as int),
        i <= r <= v@.len(),
{
    let mut cur = i;
    loop
        invariant
            i <= cur <= v@.len(),
            find_colon(v@, i as int) == find_colon(v@, cur as int),
        decreases v@.len() - cur,
    {
        if cur >= v.len() {
            return cur;
        }
        if v[cur] == ':' {
            return cur;
        }
        cur = cur + 1;
    }
}

/// The policies of resource `r` among scanned entries, in scan order.
#[verifier::rlimit(80)]
#[verifier::spinoff_prover]
pub fn policies_from_entries(entries: &Vec<(Vec<u8>, Vec<u8>)>, r: &Resource) -> (res: Result<
    Vec<(Action, Policy)>,
    StorageError,
>)
    ensures
        match res {
            Ok(pairs) => scan_pairs(entries_model(entries@), r@) == Result::<
                Seq<(Seq<char>, ExprS)>,
                (),
            >::Ok(crate::mem::pairs_view(pairs@)),
            Err(_) => scan_pairs(entries_model(entries@), r@) is Err,
        },
{
    let ghost s = entries_model(entries@);
    let mut out: Vec<(Action, Policy)> = Vec::new();
    let mut i: usize = 0;
    proof {
        assert(s.skip(0) =~= s);
    }
    while i < entries.len()
        invariant
            s == entries_model(entries@),
            s.len() == entries@.len(),
            forall|j: int| 0 <= j < s.len() ==> s[j] == (entries@[j].0@, entries@[j].1@),
            i <= entries@.len(),
            scan_pairs(s, r@) == match scan_pairs(s.skip(i as int), r@) {
                Result::<Seq<(Seq<char>, ExprS)>, ()>::Ok(rest) => Result::<
                    Seq<(Seq<char>, ExprS)>,
                    (),
                >::Ok(crate::mem::pairs_view(out@) + rest),
                Result::<Seq<(Seq<char>, ExprS)>, ()>::Err(er) => Result::<
                    Seq<(Seq<char>, ExprS)>,
                    (),
                >::Err(er),
            },
        decreases entries@.len() - i,
    {
        proof {
            assert(s.skip(i as int)[0] == s[i as int]);
            assert(s.skip(i as int).drop_first() =~= s.skip(i as int + 1));
        }
        let key_string = match string_from_utf8(&entries[i].0) {
            Some(ks) => ks,
            None => {
                return Err(
                    StorageError { cause: String::from_str("key is not UTF-8") },
                );
            },
        };
        proof {
            vstd::utf8::encode_utf8_decode_utf8(key_string@);
        }
        let kc = crate::strings::chars_vec(key_string.as_str());
        let c = find_colon_exec(&kc, 0);
        if c >= kc.len() {
            i = i + 1;
            continue;
        }
        let prefix = crate::strings::string_of_range(&kc, 0, c);
        if !crate::strings::str_eq(prefix.as_str(), r.as_str()) {
            proof {
                assert(kc@.take(c as int) == prefix@);
                assert(crate::mem::pairs_view(out@) + Seq::<(Seq<char>, ExprS)>::empty()
                    =~= crate::mem::pairs_view(out@));
            }
            return Ok(out);
        }
        let action_text = crate::strings::string_of_range(&kc, c + 1, kc.len());
        let p = match decode_policy(&entries[i].1) {
            Some(p) => p,
            None => {
                return Err(
                    StorageError { cause: String::from_str("stored value is not a policy") },
                );
            },
        };
        let ghost oldout = out@;
        let act = Action::from_raw(action_text);
        out.push((act, p));
        proof {
            assert(kc@.take(c as int) == prefix@);
            assert(kc@.skip(c as int + 1) == act@);
            assert(crate::mem::pairs_view(out@) =~= crate::mem::pairs_view(oldout).push(
                (act@, p@),
            ));
            assert forall|rest: Seq<(Seq<char>, ExprS)>| true implies (crate::mem::pairs_view(
                oldout,
            ) + (seq![(act@, p@)] + rest)) =~= (crate::mem::pairs_view(out@) + rest) by {}
        }
        i = i + 1;
    }
    proof {
        assert(s.skip(entries@.len() as int) =~= Seq::<(Seq<u8>, Seq<u8>)>::empty());
        assert(crate::mem::pairs_view(out@) + Seq::<(Seq<char>, ExprS)>::empty()
            =~= crate::mem::pairs_view(out@));
    }
    Ok(out)
}

/// The byte models of scanned entries.
pub open spec fn entries_model(s: Seq<(Vec<u8>, Vec<u8>)>) -> Seq<(Seq<u8>, Seq<u8>)> {
    Seq::new(s.len(), |i: int| (s[i].0@, s[i].1@))
}

impl LmdbStorage {
    /// Stores `p` under `(r, a)`: the binary policy record under the
    /// key `"<resource>:<action>"`.
    pub fn set_policy(&self, r: &Resource, a: &Action, p: &Policy) -> (res: Result<
        (),
        StorageError,
    >) {
        let key = policy_key(r, a);
        let value = encode_policy(p);
        self.write(key.as_str(), value.as_slice())
    }

    /// Removes the policy under `(r, a)`; removing an absent key
    /// succeeds.
    pub fn del_policy(&self, r: &Resource, a: &Action) -> (res: Result<(), StorageError>) {
        let key = policy_key(r, a);
        self.delete(key.as_str())
    }

    /// The policy stored under `(r, a)`, if any. A stored value that is
    /// not a policy record is a storage error.
    pub fn get_policy(&self, r: &Resource, a: &Action) -> (res: Result<
        Option<Policy>,
        StorageError,
    >) {
        let key = policy_key(r, a);
        match self.get_raw(key.as_str()) {
            Ok(Some(bytes)) => match decode_policy(&bytes) {
                Some(p) => Ok(Some(p)),
                None => Err(
                    StorageError { cause: String::from_str("stored value is not a policy") },
                ),
            },
            Ok(None) => Ok(None),
            Err(e) => Err(e),
        }
    }

    /// All policies under resource `r`: scans from the prefix
    /// `"<resource>:"` and keeps exactly the entries whose resource
    /// part equals `r`, stopping at the first that differs. A listing
    /// that comes back comes in strictly ascending action order.
    pub fn policies(&self, r: &Resource) -> (res: Result<PolicyList, StorageError>)
        ensures
            match res {
                Ok(l) => forall|p: int, q: int|
                    0 <= p < q < l@.len() ==> crate::strings::lex_lt(l@[p].0, l@[q].0),
                Err(_) => true,
            },
    {
        let prefix = resource_prefix(r);
        let entries = match self.scan_from(prefix.as_str()) {
            Ok(entries) => entries,
            Err(e) => {
                return Err(e);
            },
        };
        proof {
            assert(entries_sorted(entries_model(entries@))) by {
                assert(forall|i: int|
                    0 <= i < entries@.len() ==> (#[trigger] entries_model(entries@)[i]).0
                        == entries@[i].0@);
            }
        }
        match policies_from_entries(&entries, r) {
            Ok(pairs) => {
                proof {
                    lemma_scan_pairs_ordered(entries_model(entries@), r@);
                }
                let l = PolicyList::new(pairs);
                proof {
                    let ghost m = entries_model(entries@);
                    assert forall|p: int, q: int| 0 <= p < q < l@.len() implies
                        crate::strings::lex_lt(l@[p].0, l@[q].0) by {
                        assert(l@[p] == crate::mem::pairs_view(pairs@)[p]);
                        assert(l@[q] == crate::mem::pairs_view(pairs@)[q]);
                        assert(crate::strings::lex_lt(
                            scan_pairs(m, r@)->Ok_0[p].0,
                            scan_pairs(m, r@)->Ok_0[q].0,
                        ));
                    }
                }
                Ok(l)
            },
            Err(e) => Err(e),
        }
    }

    /// Stores an attribute value under `"<identity>:<attribute>"`.
    pub fn set(&self, id: &str, key: &str, value: &[u8]) -> (res: Result<(), StorageError>) {
        let k = attribute_key(id, key);
        self.write(k.as_str(), value)
    }

    /// The attribute value under `"<identity>:<attribute>"`, if any.
    pub fn get(&self, id: &str, key: &str) -> (res: Result<Option<Vec<u8>>, StorageError>) {
        let k = attribute_key(id, key);
        self.get_raw(k.as_str())
    }

    /// Removes the attribute under `"<identity>:<attribute>"`.
    pub fn del(&self, id: &str, key: &str) -> (res: Result<(), StorageError>) {
        let k = attribute_key(id, key);
        self.delete(k.as_str())
    }
}

/// The persistent key of an attribute: `"<identity>:<attribute>"`.
pub fn attribute_key(id: &str, key: &str) -> (k: String)
    ensures
        k@ == id@ + ":"@ + key@,
{
    let mut k = String::from_str(id);
    k.append(":");
    k.append(key);
    k
}

/// Encoding distributes over concatenation.
proof fn lemma_encode_utf8_concat(a: Seq<char>, b: Seq<char>)
    ensures
        encode_utf8(a + b) == encode_utf8(a) + encode_utf8(b),
    decreases a.len(),
{
    if a.len() == 0 {
        assert(a + b =~= b);
        assert(encode_utf8(a) =~= Seq::<u8>::empty());
        assert(encode_utf8(a) + encode_utf8(b) =~= encode_utf8(b));
    } else {
        assert((a + b)[0] == a[0]);
        assert((a + b).len() > 0);
        assert((a + b).drop_first() =~= a.drop_first() + b);
        lemma_encode_utf8_concat(a.drop_first(), b);
        assert(encode_utf8(a + b) =~= encode_utf8(a) + encode_utf8(b));
    }
}

/// The one-byte encoding of the key delimiter.
proof fn lemma_encode_colon()
    ensures
        encode_utf8(seq![':']) == seq![0x3Au8],
{
    vstd::utf8::char_is_scalar(':');
    assert(':' as u32 == 0x3A);
    assert((0x3Au32 & 0x7F) as u8 == 0x3Au8) by (bit_vector);
    assert(seq![':'][0] == ':');
    assert(seq![':'].drop_first() =~= Seq::<char>::empty());
    assert(encode_utf8(Seq::<char>::empty()) =~= Seq::<u8>::empty());
    assert(vstd::utf8::has_width_1_encoding(0x3A));
    assert(vstd::utf8::encode_scalar(0x3A) == seq![vstd::utf8::leading_byte_width_1(0x3A)]);
    assert(encode_utf8(seq![':']) =~= seq![0x3Au8]);
}

/// No character but the delimiter encodes to a byte equal to the
/// delimiter's.
proof fn lemma_encode_scalar_colon_free(c: char)
    requires
        c != ':',
    ensures
        forall|m: int|
            0 <= m < vstd::utf8::encode_scalar(c as u32).len() ==> #[trigger] vstd::utf8::encode_scalar(
                c as u32,
            )[m] != 0x3Au8,
    decreases 0int,
{
    vstd::utf8::char_is_scalar(c);
    vstd::utf8::char_u32_cast(c, c as u32);
    let u = c as u32;
    assert(':' as u32 == 0x3A);
    if vstd::utf8::has_width_1_encoding(u) {
        assert(u != 0x3A) by {
            if u == 0x3A {
                vstd::utf8::char_u32_cast(':', 0x3A);
            }
        }
        assert((u & 0x7F) as u8 != 0x3Au8) by (bit_vector)
            requires
                u < 0x80,
                u != 0x3A,
        ;
    } else {
        assert(0xC0u8 | ((u >> 6) & 0x1F) as u8 != 0x3Au8) by (bit_vector);
        assert(0xE0u8 | ((u >> 12) & 0x0F) as u8 != 0x3Au8) by (bit_vector);
        assert(0xF0u8 | ((u >> 18) & 0x7) as u8 != 0x3Au8) by (bit_vector);
        assert(0x80u8 | (u & 0x3F) as u8 != 0x3Au8) by (bit_vector);
        assert(0x80u8 | ((u >> 6) & 0x3F) as u8 != 0x3Au8) by (bit_vector);
        assert(0x80u8 | ((u >> 12) & 0x3F) as u8 != 0x3Au8) by (bit_vector);
    }
}

/// The encoding of a delimiter-free name holds no delimiter byte.
proof fn lemma_encode_utf8_colon_free(s: Seq<char>)
    requires
        forall|m: int| 0 <= m < s.len() ==> s[m] != ':',
    ensures
        forall|m: int| 0 <= m < encode_utf8(s).len() ==> encode_utf8(s)[m] != 0x3Au8,
    decreases s.len(),
{
    if s.len() > 0 {
        let first = vstd::utf8::encode_scalar(s[0] as u32);
        lemma_encode_scalar_colon_free(s[0]);
        assert(forall|m: int|
            0 <= m < s.drop_first().len() ==> s.drop_first()[m] == s[m + 1]);
        lemma_encode_utf8_colon_free(s.drop_first());
        assert forall|m: int| 0 <= m < encode_utf8(s).len() implies encode_utf8(s)[m]
            != 0x3Au8 by {
            assert(encode_utf8(s) == first + encode_utf8(s.drop_first()));
            if m < first.len() {
                assert(encode_utf8(s)[m] == first[m]);
            } else {
                assert(encode_utf8(s)[m] == encode_utf8(s.drop_first())[m - first.len()]);
            }
        }
    }
}

/// What `find_colon` finds: everything before is delimiter-free, and
/// the found position, if in range, holds the delimiter.
proof fn lemma_find_colon_facts(s: Seq<char>, i: int)
    requires
        0 <= i <= s.len(),
    ensures
        i <= find_colon(s, i) <= s.len(),
        forall|m: int| i <= m < find_colon(s, i) ==> s[m] != ':',
        find_colon(s, i) < s.len() ==> s[find_colon(s, i)] == ':',
    decreases s.len() - i,
{
    if i < s.len() && s[i] != ':' {
        lemma_find_colon_facts(s, i + 1);
    }
}

/// Keys of the form `name ++ delimiter ++ rest` with delimiter-free
/// names order first by name: a key at or past one name's prefix whose
/// own name differs never precedes a key of that name.
proof fn lemma_delimited_key_order(q: Seq<u8>, r: Seq<u8>, x: Seq<u8>, y: Seq<u8>)
    requires
        x.len() > q.len(),
        x.take(q.len() as int) == q,
        x[q.len() as int] == 0x3Au8,
        y.len() > r.len(),
        y.take(r.len() as int) == r,
        y[r.len() as int] == 0x3Au8,
        forall|m: int| 0 <= m < q.len() ==> q[m] != 0x3Au8,
        forall|m: int| 0 <= m < r.len() ==> r[m] != 0x3Au8,
        q != r,
        !bytes_lt(x, r.push(0x3Au8)),
    ensures
        !bytes_lt(x, y),
    decreases q.len() + r.len(),
{
    let p = r.push(0x3Au8);
    assert(x[0] == x.take(q.len() as int + 1)[0]);
    assert forall|m: int| 0 <= m < q.len() implies x[m] == q[m] by {
        assert(x.take(q.len() as int)[m] == q[m]);
    }
    assert forall|m: int| 0 <= m < r.len() implies y[m] == r[m] by {
        assert(y.take(r.len() as int)[m] == r[m]);
    }
    if q.len() == 0 && r.len() == 0 {
        assert(q =~= r);
    } else if q.len() == 0 {
        assert(x[0] == 0x3Au8);
        assert(p[0] == r[0]);
        if r[0] > 0x3Au8 {
            assert(bytes_lt(x, p));
        } else {
            assert(y[0] == r[0]);
            assert(r[0] < 0x3Au8);
            assert(!bytes_lt(x, y));
        }
    } else if r.len() == 0 {
        assert(y[0] == 0x3Au8);
        assert(p[0] == 0x3Au8);
        assert(x[0] == q[0]);
        if q[0] < 0x3Au8 {
            assert(bytes_lt(x, p));
        } else {
            assert(q[0] > 0x3Au8);
            assert(!bytes_lt(x, y));
        }
    } else {
        assert(x[0] == q[0]);
        assert(y[0] == r[0]);
        assert(p[0] == r[0]);
        if q[0] < r[0] {
            assert(bytes_lt(x, p));
        } else if q[0] > r[0] {
            assert(!bytes_lt(x, y));
        } else {
            let q2 = q.drop_first();
            let r2 = r.drop_first();
            let x2 = x.drop_first();
            let y2 = y.drop_first();
            assert(x2.take(q2.len() as int) =~= q2) by {
                assert(forall|m: int|
                    0 <= m < q2.len() ==> x2[m] == x[m + 1] && q2[m] == q[m + 1]);
            }
            assert(y2.take(r2.len() as int) =~= r2) by {
                assert(forall|m: int|
                    0 <= m < r2.len() ==> y2[m] == y[m + 1] && r2[m] == r[m + 1]);
            }
            assert(x2[q2.len() as int] == x[q.len() as int]);
            assert(y2[r2.len() as int] == y[r.len() as int]);
            if q2 == r2 {
                assert(q.len() == r.len());
                assert forall|m: int| 0 <= m < q.len() implies q[m] == r[m] by {
                    if m > 0 {
                        assert(q2[m - 1] == r2[m - 1]);
                    }
                }
                assert(q =~= r);
            }
            assert(p.drop_first() =~= r2.push(0x3Au8));
            assert(!bytes_lt(x2, r2.push(0x3Au8))) by {
                if bytes_lt(x2, p.drop_first()) {
                    assert(bytes_lt(x, p));
                }
            }
            lemma_delimited_key_order(q2, r2, x2, y2);
            assert(!bytes_lt(x, y));
        }
    }
}

/// A key that names a resource decomposes into the resource's bytes,
/// the delimiter byte, and the action's bytes.
proof fn lemma_key_decomposition(k: Seq<u8>, c: int)
    requires
        valid_utf8(k),
        0 <= c < decode_utf8(k).len(),
        decode_utf8(k)[c] == ':',
    ensures
        k == encode_utf8(decode_utf8(k).take(c)) + seq![0x3Au8] + encode_utf8(
            decode_utf8(k).skip(c + 1),
        ),
{
    let t = decode_utf8(k);
    assert(t =~= t.take(c) + seq![t[c]] + t.skip(c + 1));
    vstd::utf8::decode_utf8_encode_utf8(k);
    lemma_encode_utf8_concat(t.take(c) + seq![t[c]], t.skip(c + 1));
    lemma_encode_utf8_concat(t.take(c), seq![t[c]]);
    lemma_encode_colon();
    assert(seq![t[c]] =~= seq![':']);
    assert(k == encode_utf8(t));
    assert(encode_utf8(t) == encode_utf8(t.take(c) + seq![t[c]] + t.skip(c + 1))) by {
        assert(t == t.take(c) + seq![t[c]] + t.skip(c + 1));
    }
}

/// Range-scan completeness: with keys strictly ascending and none below
/// the resource's scan prefix, stopping at the first other resource
/// loses nothing. Every entry whose key names resource `rv` contributes
/// its pair to a successful listing.
pub proof fn lemma_scan_pairs_complete(entries: Seq<(Seq<u8>, Seq<u8>)>, rv: Seq<char>, j: int)
    requires
        forall|a: int, b: int|
            0 <= a < b < entries.len() ==> bytes_lt(
                (#[trigger] entries[a]).0,
                (#[trigger] entries[b]).0,
            ),
        forall|a: int|
            0 <= a < entries.len() ==> !bytes_lt(
                (#[trigger] entries[a]).0,
                encode_utf8(rv) + seq![0x3Au8],
            ),
        forall|m: int| 0 <= m < rv.len() ==> rv[m] != ':',
        0 <= j < entries.len(),
        valid_utf8(entries[j].0),
        find_colon(decode_utf8(entries[j].0), 0) < decode_utf8(entries[j].0).len(),
        decode_utf8(entries[j].0).take(find_colon(decode_utf8(entries[j].0), 0)) == rv,
        scan_pairs(entries, rv) is Ok,
    ensures
        exists|k: int|
            0 <= k < scan_pairs(entries, rv)->Ok_0.len() && scan_pairs(entries, rv)->Ok_0[k]
                == (
                decode_utf8(entries[j].0).skip(find_colon(decode_utf8(entries[j].0), 0) + 1),
                dec_policy(entries[j].1)->0,
            ),
    decreases entries.len(),
{
    let k0 = entries[0].0;
    let v0 = entries[0].1;
    let kj = entries[j].0;
    let tj = decode_utf8(kj);
    let cj = find_colon(tj, 0);
    lemma_find_colon_facts(tj, 0);
    let rest = entries.drop_first();
    assert(forall|a: int| 0 <= a < rest.len() ==> rest[a] == entries[a + 1]);
    if j == 0 {
        let out = scan_pairs(entries, rv)->Ok_0;
        assert(out[0] == (tj.skip(cj + 1), dec_policy(v0)->0));
    } else {
        assert(valid_utf8(k0)) by {
            if !valid_utf8(k0) {
                assert(scan_pairs(entries, rv) is Err);
            }
        }
        let t0 = decode_utf8(k0);
        let c0 = find_colon(t0, 0);
        lemma_find_colon_facts(t0, 0);
        if c0 >= t0.len() {
            lemma_scan_pairs_complete(rest, rv, j - 1);
        } else if t0.take(c0) != rv {
            let rbytes = encode_utf8(rv);
            let q = encode_utf8(t0.take(c0));
            lemma_key_decomposition(k0, c0);
            lemma_key_decomposition(kj, cj);
            assert(kj.take(rbytes.len() as int) =~= rbytes);
            assert(kj[rbytes.len() as int] == 0x3Au8) by {
                assert(kj == rbytes + seq![0x3Au8] + encode_utf8(tj.skip(cj + 1)));
            }
            assert(k0.take(q.len() as int) =~= q);
            assert(k0[q.len() as int] == 0x3Au8) by {
                assert(k0 == q + seq![0x3Au8] + encode_utf8(t0.skip(c0 + 1)));
            }
            assert(forall|m: int| 0 <= m < t0.take(c0).len() ==> t0.take(c0)[m] != ':');
            lemma_encode_utf8_colon_free(t0.take(c0));
            lemma_encode_utf8_colon_free(rv);
            assert(q != rbytes) by {
                if q == rbytes {
                    vstd::utf8::encode_utf8_decode_utf8(t0.take(c0));
                    vstd::utf8::encode_utf8_decode_utf8(rv);
                }
            }
            assert(!bytes_lt(k0, rbytes.push(0x3Au8))) by {
                assert(rbytes.push(0x3Au8) =~= rbytes + seq![0x3Au8]);
            }
            lemma_delimited_key_order(q, rbytes, k0, kj);
            assert(bytes_lt(k0, kj));
        } else {
            let out = scan_pairs(entries, rv)->Ok_0;
            let rout = scan_pairs(rest, rv)->Ok_0;
            lemma_scan_pairs_complete(rest, rv, j - 1);
            let k = choose|k: int|
                0 <= k < rout.len() && rout[k] == (
                    decode_utf8(rest[j - 1].0).skip(find_colon(decode_utf8(rest[j - 1].0), 0)
                        + 1),
                    dec_policy(rest[j - 1].1)->0,
                );
            assert(out == seq![(t0.skip(c0 + 1), dec_policy(v0)->0)] + rout);
            assert(out[k + 1] == rout[k]);
            assert(rest[j - 1] == entries[j]);
        }
    }
}

/// A strict byte comparison decided at the first position.
proof fn lemma_bytes_lt_first(x: Seq<u8>, y: Seq<u8>)
    requires
        x.len() > 0,
        y.len() > 0,
        x[0] < y[0],
    ensures
        bytes_lt(x, y),
{
}

/// Equal heads reduce a byte comparison to the tails.
proof fn lemma_bytes_lt_cons(x: Seq<u8>, y: Seq<u8>)
    requires
        x.len() > 0,
        y.len() > 0,
        x[0] == y[0],
        bytes_lt(x.drop_first(), y.drop_first()),
    ensures
        bytes_lt(x, y),
{
}

/// Stripping one shared prefix keeps a strict byte comparison.
proof fn lemma_bytes_lt_strip(x: Seq<u8>, u: Seq<u8>, v: Seq<u8>)
    requires
        bytes_lt(x + u, x + v),
    ensures
        bytes_lt(u, v),
    decreases x.len(),
{
    if x.len() == 0 {
        assert(x + u =~= u);
        assert(x + v =~= v);
    } else {
        assert((x + u)[0] == x[0] && (x + v)[0] == x[0]);
        assert((x + u).drop_first() =~= x.drop_first() + u);
        assert((x + v).drop_first() =~= x.drop_first() + v);
        lemma_bytes_lt_strip(x.drop_first(), u, v);
    }
}

/// The number of bytes a scalar encodes to.
pub open spec fn scalar_width(u: u32) -> int {
    if u < 0x80 {
        1
    } else if u < 0x800 {
        2
    } else if u < 0x10000 {
        3
    } else {
        4
    }
}

/// A smaller scalar followed by anything precedes a larger scalar
/// followed by anything, in byte order: UTF-8 encodings sort like the
/// scalars they encode.
proof fn lemma_scalar_bytes_order(u1: u32, u2: u32, r1: Seq<u8>, r2: Seq<u8>)
    requires
        vstd::utf8::is_scalar(u1),
        vstd::utf8::is_scalar(u2),
        u1 < u2,
    ensures
        bytes_lt(vstd::utf8::encode_scalar(u1) + r1, vstd::utf8::encode_scalar(u2) + r2),
{
    let e1 = vstd::utf8::encode_scalar(u1);
    let e2 = vstd::utf8::encode_scalar(u2);
    let x = e1 + r1;
    let y = e2 + r2;
    let w1 = scalar_width(u1);
    let w2 = scalar_width(u2);
    lemma_scalar_head_bounds(u1);
    lemma_scalar_head_bounds(u2);
    assert(x[0] == e1[0] && y[0] == e2[0]);
    if w1 < w2 {
        lemma_bytes_lt_first(x, y);
    } else {
        assert(w1 == w2);
        if w1 == 1 {
            assert((u1 & 0x7F) < (u2 & 0x7F)) by (bit_vector)
                requires
                    u1 < 0x80,
                    u2 < 0x80,
                    u1 < u2,
            ;
            lemma_bytes_lt_first(x, y);
        } else if w1 == 2 {
            assert(e1 =~= seq![e1[0], e1[1]]);
            assert(e2 =~= seq![e2[0], e2[1]]);
            assert((u1 >> 6) <= (u2 >> 6) && ((u1 >> 6) == (u2 >> 6) ==> (u1 & 0x3F) < (u2
                & 0x3F))) by (bit_vector)
                requires
                    u1 < u2,
            ;
            if (u1 >> 6) < (u2 >> 6) {
                assert((0xC0u8 | ((u1 >> 6) & 0x1F) as u8) < (0xC0u8 | ((u2 >> 6)
                    & 0x1F) as u8)) by (bit_vector)
                    requires
                        u1 < 0x800,
                        u2 < 0x800,
                        (u1 >> 6) < (u2 >> 6),
                ;
                lemma_bytes_lt_first(x, y);
            } else {
                assert((0x80u8 | (u1 & 0x3F) as u8) < (0x80u8 | (u2 & 0x3F) as u8))
                    by (bit_vector)
                    requires
                        (u1 & 0x3F) < (u2 & 0x3F),
                ;
                assert(x.drop_first() =~= seq![e1[1]] + r1);
                assert(y.drop_first() =~= seq![e2[1]] + r2);
                lemma_bytes_lt_first(seq![e1[1]] + r1, seq![e2[1]] + r2);
                lemma_bytes_lt_cons(x, y);
            }
        } else if w1 == 3 {
            assert(e1 =~= seq![e1[0], e1[1], e1[2]]);
            assert(e2 =~= seq![e2[0], e2[1], e2[2]]);
            assert((u1 >> 12) <= (u2 >> 12) && ((u1 >> 12) == (u2 >> 12) ==> ((u1 >> 6)
                & 0x3F) <= ((u2 >> 6) & 0x3F)) && ((u1 >> 12) == (u2 >> 12) && ((u1 >> 6)
                & 0x3F) == ((u2 >> 6) & 0x3F) ==> (u1 & 0x3F) < (u2 & 0x3F))) by (bit_vector)
                requires
                    u1 < u2,
            ;
            if (u1 >> 12) < (u2 >> 12) {
                assert((0xE0u8 | ((u1 >> 12) & 0x0F) as u8) < (0xE0u8 | ((u2 >> 12)
                    & 0x0F) as u8)) by (bit_vector)
                    requires
                        u1 < 0x10000,
                        u2 < 0x10000,
                        (u1 >> 12) < (u2 >> 12),
                ;
                lemma_bytes_lt_first(x, y);
            } else if ((u1 >> 6) & 0x3F) < ((u2 >> 6) & 0x3F) {
                assert((0x80u8 | ((u1 >> 6) & 0x3F) as u8) < (0x80u8 | ((u2 >> 6)
                    & 0x3F) as u8)) by (bit_vector)
                    requires
                        ((u1 >> 6) & 0x3F) < ((u2 >> 6) & 0x3F),
                ;
                assert(x.drop_first() =~= seq![e1[1], e1[2]] + r1);
                assert(y.drop_first() =~= seq![e2[1], e2[2]] + r2);
                lemma_bytes_lt_first(seq![e1[1], e1[2]] + r1, seq![e2[1], e2[2]] + r2);
                lemma_bytes_lt_cons(x, y);
            } else {
                assert((0x80u8 | (u1 & 0x3F) as u8) < (0x80u8 | (u2 & 0x3F) as u8))
                    by (bit_vector)
                    requires
                        (u1 & 0x3F) < (u2 & 0x3F),
                ;
                assert(x.drop_first() =~= seq![e1[1], e1[2]] + r1);
                assert(y.drop_first() =~= seq![e2[1], e2[2]] + r2);
                assert((seq![e1[1], e1[2]] + r1).drop_first() =~= seq![e1[2]] + r1);
                assert((seq![e2[1], e2[2]] + r2).drop_first() =~= seq![e2[2]] + r2);
                lemma_bytes_lt_first(seq![e1[2]] + r1, seq![e2[2]] + r2);
                lemma_bytes_lt_cons(seq![e1[1], e1[2]] + r1, seq![e2[1], e2[2]] + r2);
                lemma_bytes_lt_cons(x, y);
            }
        } else {
            assert(e1 =~= seq![e1[0], e1[1], e1[2], e1[3]]);
            assert(e2 =~= seq![e2[0], e2[1], e2[2], e2[3]]);
            assert((u1 >> 18) <= (u2 >> 18) && ((u1 >> 18) == (u2 >> 18) ==> ((u1 >> 12)
                & 0x3F) <= ((u2 >> 12) & 0x3F)) && ((u1 >> 18) == (u2 >> 18) && ((u1 >> 12)
                & 0x3F) == ((u2 >> 12) & 0x3F) ==> ((u1 >> 6) & 0x3F) <= ((u2 >> 6) & 0x3F))
                && ((u1 >> 18) == (u2 >> 18) && ((u1 >> 12) & 0x3F) == ((u2 >> 12) & 0x3F)
                && ((u1 >> 6) & 0x3F) == ((u2 >> 6) & 0x3F) ==> (u1 & 0x3F) < (u2 & 0x3F)))
                by (bit_vector)
                requires
                    u1 < u2,
            ;
            if (u1 >> 18) < (u2 >> 18) {
                assert((0xF0u8 | ((u1 >> 18) & 0x7) as u8) < (0xF0u8 | ((u2 >> 18)
                    & 0x7) as u8)) by (bit_vector)
                    requires
                        u1 < 0x110000,
                        u2 < 0x110000,
                        (u1 >> 18) < (u2 >> 18),
                ;
                lemma_bytes_lt_first(x, y);
            } else if ((u1 >> 12) & 0x3F) < ((u2 >> 12) & 0x3F) {
                assert((0x80u8 | ((u1 >> 12) & 0x3F) as u8) < (0x80u8 | ((u2 >> 12)
                    & 0x3F) as u8)) by (bit_vector)
                    requires
                        ((u1 >> 12) & 0x3F) < ((u2 >> 12) & 0x3F),
                ;
                assert(x.drop_first() =~= seq![e1[1], e1[2], e1[3]] + r1);
                assert(y.drop_first() =~= seq![e2[1], e2[2], e2[3]] + r2);
                lemma_bytes_lt_first(
                    seq![e1[1], e1[2], e1[3]] + r1,
                    seq![e2[1], e2[2], e2[3]] + r2,
                );
                lemma_bytes_lt_cons(x, y);
            } else if ((u1 >> 6) & 0x3F) < ((u2 >> 6) & 0x3F) {
                assert((0x80u8 | ((u1 >> 6) & 0x3F) as u8) < (0x80u8 | ((u2 >> 6)
                    & 0x3F) as u8)) by (bit_vector)
                    requires
                        ((u1 >> 6) & 0x3F) < ((u2 >> 6) & 0x3F),
                ;
                assert(x.drop_first() =~= seq![e1[1], e1[2], e1[3]] + r1);
                assert(y.drop_first() =~= seq![e2[1], e2[2], e2[3]] + r2);
                assert((seq![e1[1], e1[2], e1[3]] + r1).drop_first() =~= seq![e1[2], e1[3]]
                    + r1);
                assert((seq![e2[1], e2[2], e2[3]] + r2).drop_first() =~= seq![e2[2], e2[3]]
                    + r2);
                lemma_bytes_lt_first(seq![e1[2], e1[3]] + r1, seq![e2[2], e2[3]] + r2);
                lemma_bytes_lt_cons(seq![e1[1], e1[2], e1[3]] + r1, seq![e2[1], e2[2], e2[3]]
                    + r2);
                lemma_bytes_lt_cons(x, y);
            } else {
                assert((0x80u8 | (u1 & 0x3F) as u8) < (0x80u8 | (u2 & 0x3F) as u8))
                    by (bit_vector)
                    requires
                        (u1 & 0x3F) < (u2 & 0x3F),
                ;
                assert(x.drop_first() =~= seq![e1[1], e1[2], e1[3]] + r1);
                assert(y.drop_first() =~= seq![e2[1], e2[2], e2[3]] + r2);
                assert((seq![e1[1], e1[2], e1[3]] + r1).drop_first() =~= seq![e1[2], e1[3]]
                    + r1);
                assert((seq![e2[1], e2[2], e2[3]] + r2).drop_first() =~= seq![e2[2], e2[3]]
                    + r2);
                assert((seq![e1[2], e1[3]] + r1).drop_first() =~= seq![e1[3]] + r1);
                assert((seq![e2[2], e2[3]] + r2).drop_first() =~= seq![e2[3]] + r2);
                lemma_bytes_lt_first(seq![e1[3]] + r1, seq![e2[3]] + r2);
                lemma_bytes_lt_cons(seq![e1[2], e1[3]] + r1, seq![e2[2], e2[3]] + r2);
                lemma_bytes_lt_cons(seq![e1[1], e1[2], e1[3]] + r1, seq![e2[1], e2[2], e2[3]]
                    + r2);
                lemma_bytes_lt_cons(x, y);
            }
        }
    }
}

/// Bounds on a scalar's leading byte, by width: the width classes use
/// disjoint, ascending leading-byte ranges.
proof fn lemma_scalar_head_bounds(u: u32)
    requires
        vstd::utf8::is_scalar(u),
    ensures
        vstd::utf8::encode_scalar(u).len() == scalar_width(u),
        scalar_width(u) == 1 ==> vstd::utf8::encode_scalar(u)[0] < 0x80,
        scalar_width(u) == 2 ==> 0xC0 <= vstd::utf8::encode_scalar(u)[0] < 0xE0,
        scalar_width(u) == 3 ==> 0xE0 <= vstd::utf8::encode_scalar(u)[0] < 0xF0,
        scalar_width(u) == 4 ==> 0xF0 <= vstd::utf8::encode_scalar(u)[0],
{
    if u < 0x80 {
        assert(((u & 0x7F) as u8) < 0x80u8) by (bit_vector);
    } else if u < 0x800 {
        assert(0xC0u8 <= (0xC0u8 | ((u >> 6) & 0x1F) as u8) && (0xC0u8 | ((u >> 6)
            & 0x1F) as u8) < 0xE0u8) by (bit_vector);
    } else if u < 0x10000 {
        assert(0xE0u8 <= (0xE0u8 | ((u >> 12) & 0x0F) as u8) && (0xE0u8 | ((u >> 12)
            & 0x0F) as u8) < 0xF0u8) by (bit_vector);
    } else {
        assert(0xF0u8 <= (0xF0u8 | ((u >> 18) & 0x7) as u8)) by (bit_vector);
    }
}

/// A strict byte comparison only holds one way around.
proof fn lemma_bytes_lt_asym(x: Seq<u8>, y: Seq<u8>)
    requires
        bytes_lt(x, y),
    ensures
        !bytes_lt(y, x),
    decreases x.len(),
{
    if x.len() > 0 && y.len() > 0 && x[0] == y[0] {
        lemma_bytes_lt_asym(x.drop_first(), y.drop_first());
    }
}

/// Byte order of encodings is character order: UTF-8 preserves the
/// code-point ordering of the text it encodes.
proof fn lemma_utf8_order(a: Seq<char>, b: Seq<char>)
    requires
        bytes_lt(encode_utf8(a), encode_utf8(b)),
    ensures
        crate::strings::lex_lt(a, b),
    decreases a.len(),
{
    let ea = encode_utf8(a);
    let eb = encode_utf8(b);
    if b.len() == 0 {
        assert(eb =~= Seq::<u8>::empty());
    } else if a.len() == 0 {
        assert(ea =~= Seq::<u8>::empty());
    } else {
        let u1 = a[0] as u32;
        let u2 = b[0] as u32;
        vstd::utf8::char_is_scalar(a[0]);
        vstd::utf8::char_is_scalar(b[0]);
        let e1 = vstd::utf8::encode_scalar(u1);
        let e2 = vstd::utf8::encode_scalar(u2);
        assert(ea == e1 + encode_utf8(a.drop_first()));
        assert(eb == e2 + encode_utf8(b.drop_first()));
        if u1 == u2 {
            vstd::utf8::char_u32_cast(a[0], u1);
            vstd::utf8::char_u32_cast(b[0], u2);
            assert(a[0] == b[0]);
            lemma_bytes_lt_strip(e1, encode_utf8(a.drop_first()), encode_utf8(b.drop_first()));
            lemma_utf8_order(a.drop_first(), b.drop_first());
        } else if u1 < u2 {
        } else {
            lemma_scalar_bytes_order(
                u2,
                u1,
                encode_utf8(b.drop_first()),
                encode_utf8(a.drop_first()),
            );
            lemma_bytes_lt_asym(eb, ea);
        }
    }
}

/// Keys strictly ascending in byte order.
pub open spec fn entries_sorted(s: Seq<(Seq<u8>, Seq<u8>)>) -> bool {
    forall|i: int, j: int|
        0 <= i < j < s.len() ==> bytes_lt((#[trigger] s[i]).0, (#[trigger] s[j]).0)
}

/// Every listed pair has a source entry whose key is the resource, the
/// delimiter, and the pair's action, encoded.
proof fn lemma_scan_pairs_sources(entries: Seq<(Seq<u8>, Seq<u8>)>, rv: Seq<char>, p: int)
    requires
        scan_pairs(entries, rv) is Ok,
        0 <= p < scan_pairs(entries, rv)->Ok_0.len(),
    ensures
        exists|m: int|
            0 <= m < entries.len() && (#[trigger] entries[m]).0 == encode_utf8(rv) + seq![
                0x3Au8,
            ] + encode_utf8(scan_pairs(entries, rv)->Ok_0[p].0),
    decreases entries.len(),
{
    let k0 = entries[0].0;
    let rest = entries.drop_first();
    assert(forall|m: int| 0 <= m < rest.len() ==> rest[m] == entries[m + 1]);
    let t0 = decode_utf8(k0);
    let c0 = find_colon(t0, 0);
    lemma_find_colon_facts(t0, 0);
    let out = scan_pairs(entries, rv)->Ok_0;
    if c0 >= t0.len() {
        lemma_scan_pairs_sources(rest, rv, p);
        let m0 = choose|m: int|
            0 <= m < rest.len() && (#[trigger] rest[m]).0 == encode_utf8(rv) + seq![0x3Au8]
                + encode_utf8(scan_pairs(rest, rv)->Ok_0[p].0);
        assert(entries[m0 + 1].0 == encode_utf8(rv) + seq![0x3Au8] + encode_utf8(out[p].0));
    } else {
        lemma_key_decomposition(k0, c0);
        let rout = scan_pairs(rest, rv)->Ok_0;
        assert(out == seq![(t0.skip(c0 + 1), dec_policy(entries[0].1)->0)] + rout);
        if p == 0 {
            assert(entries[0].0 == encode_utf8(rv) + seq![0x3Au8] + encode_utf8(out[0].0));
        } else {
            assert(out[p] == rout[p - 1]);
            lemma_scan_pairs_sources(rest, rv, p - 1);
            let m0 = choose|m: int|
                0 <= m < rest.len() && (#[trigger] rest[m]).0 == encode_utf8(rv) + seq![
                    0x3Au8,
                ] + encode_utf8(rout[p - 1].0);
            assert(entries[m0 + 1].0 == encode_utf8(rv) + seq![0x3Au8] + encode_utf8(
                out[p].0,
            ));
        }
    }
}

/// With ascending keys, a successful listing comes back in strictly
/// ascending action order.
pub proof fn lemma_scan_pairs_ordered(entries: Seq<(Seq<u8>, Seq<u8>)>, rv: Seq<char>)
    requires
        entries_sorted(entries),
        scan_pairs(entries, rv) is Ok,
    ensures
        forall|p: int, q: int|
            0 <= p < q < scan_pairs(entries, rv)->Ok_0.len() ==> crate::strings::lex_lt(
                scan_pairs(entries, rv)->Ok_0[p].0,
                scan_pairs(entries, rv)->Ok_0[q].0,
            ),
    decreases entries.len(),
{
    if entries.len() > 0 {
        let k0 = entries[0].0;
        let rest = entries.drop_first();
        assert(forall|m: int| 0 <= m < rest.len() ==> rest[m] == entries[m + 1]);
        let t0 = decode_utf8(k0);
        let c0 = find_colon(t0, 0);
        lemma_find_colon_facts(t0, 0);
        let out = scan_pairs(entries, rv)->Ok_0;
        if c0 >= t0.len() {
            lemma_scan_pairs_ordered(rest, rv);
        } else if t0.take(c0) != rv {
        } else {
            lemma_scan_pairs_ordered(rest, rv);
            lemma_key_decomposition(k0, c0);
            let rout = scan_pairs(rest, rv)->Ok_0;
            assert(out == seq![(t0.skip(c0 + 1), dec_policy(entries[0].1)->0)] + rout);
            assert forall|p: int, q: int| 0 <= p < q < out.len() implies crate::strings::lex_lt(
                out[p].0,
                out[q].0,
            ) by {
                if p == 0 {
                    assert(out[q] == rout[q - 1]);
                    lemma_scan_pairs_sources(rest, rv, q - 1);
                    let m0 = choose|m: int|
                        0 <= m < rest.len() && (#[trigger] rest[m]).0 == encode_utf8(rv)
                            + seq![0x3Au8] + encode_utf8(rout[q - 1].0);
                    assert(bytes_lt(entries[0].0, entries[m0 + 1].0));
                    let pfx = encode_utf8(rv) + seq![0x3Au8];
                    assert(entries[0].0 =~= pfx + encode_utf8(out[0].0));
                    assert(entries[m0 + 1].0 =~= pfx + encode_utf8(out[q].0));
                    lemma_bytes_lt_strip(pfx, encode_utf8(out[0].0), encode_utf8(out[q].0));
                    lemma_utf8_order(out[0].0, out[q].0);
                } else {
                    assert(out[p] == rout[p - 1] && out[q] == rout[q - 1]);
                }
            }
        }
    }
}

} // verus!
