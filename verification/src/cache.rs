//! Key-value caches: the connection abstraction the cache layer works
//! against, and an in-memory implementation.
//!
//! Keys are flat strings; values are bytes. A delete may name a glob: a
//! pattern ending in `*` removes every key that begins with the part before
//! the star.

use vstd::prelude::*;
use vstd::utf8::{decode_utf8, valid_utf8};

use crate::strutil::str_eq;

verus! {

/// Errors raised by cache operations.
#[derive(Debug, PartialEq, Eq)]
pub enum CacheError {
    /// A problem occurred when trying to connect to the cache.
    ConnectionError,
    /// A problem occurred when trying to do something with the cache.
    OperationError(String),
    /// The desired item was not found in the cache.
    NotFound,
}

/// Whether `key` matches `pattern`: equality, or, when the pattern ends in
/// `*`, the part before the star is a prefix of the key.
pub open spec fn key_matches_glob(pattern: Seq<char>, key: Seq<char>) -> bool {
    if pattern.len() > 0 && pattern.last() == '*' {
        key.len() >= pattern.len() - 1 && key.take(pattern.len() - 1) == pattern.take(
            pattern.len() - 1,
        )
    } else {
        key == pattern
    }
}

/// The cache contents after deleting every key that matches the pattern.
pub open spec fn remove_glob(c: Map<Seq<char>, Seq<u8>>, pattern: Seq<char>) -> Map<
    Seq<char>,
    Seq<u8>,
> {
    Map::new(|k: Seq<char>| c.contains_key(k) && !key_matches_glob(pattern, k), |k| c[k])
}

/// An active connection to a key-value cache.
pub trait CacheConnection: Sized {
    /// The keys and values held.
    spec fn cache_model(&self) -> Map<Seq<char>, Seq<u8>>;

    /// Whether this connection answers every operation. An in-memory cache
    /// does; a remote one need not.
    spec fn reliable(&self) -> bool;

    /// Stores a value under a key; on failure the contents are unchanged.
    fn set(&mut self, key: &str, value: &[u8]) -> (r: Result<(), CacheError>)
        ensures
            final(self).reliable() == old(self).reliable(),
            old(self).reliable() ==> r is Ok,
            match r {
                Ok(()) => final(self).cache_model() == old(self).cache_model().insert(key@, value@),
                Err(_) => final(self).cache_model() == old(self).cache_model(),
            },
    ;

    /// Reads the value under a key; `NotFound` exactly when the connection
    /// answers and no value is stored under the key.
    fn get(&mut self, key: &str) -> (r: Result<Vec<u8>, CacheError>)
        ensures
            final(self).cache_model() == old(self).cache_model(),
            final(self).reliable() == old(self).reliable(),
            old(self).reliable() ==> (r is Ok <==> old(self).cache_model().contains_key(key@)),
            old(self).reliable() && r is Err ==> r->Err_0 is NotFound,
            match r {
                Ok(v) => old(self).cache_model().contains_key(key@) && v@ == old(
                    self,
                ).cache_model()[key@],
                Err(CacheError::NotFound) => !old(self).cache_model().contains_key(key@),
                Err(_) => true,
            },
    ;

    /// Stores a value under a key, to live for at most `ttl_seconds` in a
    /// cache that expires entries. Expiry is the backend's affair and not
    /// modeled: right after the call the value is stored, exactly as `set`
    /// leaves it; a backend without expiry keeps it until deleted.
    fn set_with_ttl(&mut self, key: &str, value: &[u8], ttl_seconds: u32) -> (r: Result<
        (),
        CacheError,
    >)
        ensures
            final(self).reliable() == old(self).reliable(),
            old(self).reliable() ==> r is Ok,
            match r {
                Ok(()) => final(self).cache_model() == old(self).cache_model().insert(key@, value@),
                Err(_) => final(self).cache_model() == old(self).cache_model(),
            },
    {
        let _ = ttl_seconds;
        self.set(key, value)
    }

    /// Deletes the key, or, with a trailing `*`, every key beginning with the
    /// part before the star; returns how many keys the backend counted as
    /// removed — the count is advisory. On failure the contents are
    /// unchanged.
    fn delete(&mut self, key: &str) -> (r: Result<u32, CacheError>)
        ensures
            final(self).reliable() == old(self).reliable(),
            old(self).reliable() ==> r is Ok,
            match r {
                Ok(_) => final(self).cache_model() == remove_glob(old(self).cache_model(), key@),
                Err(_) => final(self).cache_model() == old(self).cache_model(),
            },
    ;

    /// A second handle onto the same contents.
    fn duplicate(&self) -> (r: Self)
        ensures
            r.cache_model() == self.cache_model(),
            r.reliable() == self.reliable(),
    ;

    /// Reads the value under a key as UTF-8 text.
    fn get_string(&mut self, key: &str) -> (r: Result<String, CacheError>)
        ensures
            final(self).cache_model() == old(self).cache_model(),
            final(self).reliable() == old(self).reliable(),
            old(self).reliable() ==> (r is Ok <==> old(self).cache_model().contains_key(key@)
                && valid_utf8(old(self).cache_model()[key@])),
            match r {
                Ok(s) => old(self).cache_model().contains_key(key@) && valid_utf8(
                    old(self).cache_model()[key@],
                ) && s@ == decode_utf8(old(self).cache_model()[key@]),
                Err(CacheError::NotFound) => !old(self).cache_model().contains_key(key@),
                Err(_) => true,
            },
    {
        match self.get(key) {
            Ok(v) => match crate::asset::str_from_utf8(v.as_slice()) {
                Some(s) => Ok(s.to_owned()),
                None => Err(
                    CacheError::OperationError(String::from_str("value is not UTF-8 text")),
                ),
            },
            Err(e) => Err(e),
        }
    }
}

/// A cache: a source of connections to one key-value store.
pub trait Cache: Sized {
    type Connection: CacheConnection;

    /// The keys and values held.
    spec fn store_model(&self) -> Map<Seq<char>, Seq<u8>>;

    /// Whether the cache can be connected to. An in-memory cache always can;
    /// a remote one need not.
    spec fn reachable(&self) -> bool;

    /// Opens a connection onto the cache's contents; a reachable cache
    /// connects.
    fn connect(&self) -> (r: Result<Self::Connection, CacheError>)
        ensures
            self.reachable() ==> r is Ok,
            match r {
                Ok(c) => c.cache_model() == self.store_model(),
                Err(e) => e is ConnectionError,
            },
    ;
}

/// An in-memory key-value cache connection.
pub struct MemoryCacheConnection {
    items: Vec<(String, Vec<u8>)>,
}

/// The association-list model: the last entry with a key decides.
pub open spec fn map_of_kv(items: Seq<(String, Vec<u8>)>) -> Map<Seq<char>, Seq<u8>>
    decreases items.len(),
{
    if items.len() == 0 {
        Map::empty()
    } else {
        map_of_kv(items.drop_last()).insert(items.last().0@, items.last().1@)
    }
}

proof fn lemma_map_of_kv_props(items: Seq<(String, Vec<u8>)>)
    ensures
        forall|k: Seq<char>|
            #[trigger] map_of_kv(items).contains_key(k) <==> exists|i: int|
                0 <= i < items.len() && items[i].0@ == k,
        forall|i: int|
            0 <= i < items.len() && (forall|j: int|
                i < j < items.len() ==> items[j].0@ != items[i].0@) ==> map_of_kv(items)[(
            #[trigger] items[i]).0@] == items[i].1@,
    decreases items.len(),
{
    if items.len() > 0 {
        let pre = items.drop_last();
        lemma_map_of_kv_props(pre);
        assert forall|k: Seq<char>| #[trigger]
            map_of_kv(items).contains_key(k) implies exists|i: int|
            0 <= i < items.len() && items[i].0@ == k by {
            if k == items.last().0@ {
                assert(items[items.len() - 1].0@ == k);
            } else {
                assert(map_of_kv(pre).contains_key(k));
                let i = choose|i: int| 0 <= i < pre.len() && pre[i].0@ == k;
                assert(pre[i] == items[i]);
                assert(items[i].0@ == k);
            }
        }
        assert forall|k: Seq<char>|
            (exists|i: int| 0 <= i < items.len() && items[i].0@ == k) implies #[trigger]
            map_of_kv(items).contains_key(k) by {
            let i = choose|i: int| 0 <= i < items.len() && items[i].0@ == k;
            if i < items.len() - 1 {
                assert(pre[i] == items[i]);
                assert(pre[i].0@ == k);
                assert(map_of_kv(pre).contains_key(k));
            } else {
                assert(items.last().0@ == k);
            }
        }
        assert forall|i: int|
            0 <= i < items.len() && (forall|j: int|
                i < j < items.len() ==> items[j].0@ != items[i].0@) implies map_of_kv(items)[(
            #[trigger] items[i]).0@] == items[i].1@ by {
            if i < items.len() - 1 {
                assert(items[i].0@ != items[items.len() - 1].0@);
                assert forall|j: int| i < j < pre.len() implies pre[j].0@ != pre[i].0@ by {
                    assert(pre[j].0@ == items[j].0@);
                }
                assert(map_of_kv(pre)[pre[i].0@] == pre[i].1@);
                assert(pre[i].0@ == items[i].0@);
            }
        }
    }
}

/// The entries whose key does not match the glob pattern.
spec fn kv_without_glob(items: Seq<(String, Vec<u8>)>, pattern: Seq<char>) -> Seq<
    (String, Vec<u8>),
>
    decreases items.len(),
{
    if items.len() == 0 {
        Seq::empty()
    } else {
        let rest = kv_without_glob(items.drop_last(), pattern);
        if key_matches_glob(pattern, items.last().0@) {
            rest
        } else {
            rest.push(items.last())
        }
    }
}

proof fn lemma_kv_without_glob(items: Seq<(String, Vec<u8>)>, pattern: Seq<char>)
    ensures
        map_of_kv(kv_without_glob(items, pattern)) == remove_glob(map_of_kv(items), pattern),
    decreases items.len(),
{
    if items.len() == 0 {
        assert(remove_glob(map_of_kv(items), pattern) =~= Map::<Seq<char>, Seq<u8>>::empty());
    } else {
        let pre = items.drop_last();
        lemma_kv_without_glob(pre, pattern);
        if key_matches_glob(pattern, items.last().0@) {
            assert(remove_glob(map_of_kv(items), pattern) =~= remove_glob(
                map_of_kv(pre),
                pattern,
            ));
        } else {
            let ew = kv_without_glob(pre, pattern).push(items.last());
            assert(ew.drop_last() =~= kv_without_glob(pre, pattern));
            assert(ew.last() == items.last());
            assert(remove_glob(map_of_kv(pre), pattern).insert(items.last().0@, items.last().1@)
                =~= remove_glob(map_of_kv(items), pattern));
        }
    }
}

/// Whether `key` matches `pattern`, with a trailing `*` read as a prefix
/// wildcard.
fn glob_matches(pattern: &str, key: &String) -> (r: bool)
    ensures
        r == key_matches_glob(pattern@, key@),
{
    let n = pattern.unicode_len();
    let ks = key.as_str();
    let m = ks.unicode_len();
    if n > 0 && pattern.get_char(n - 1) == '*' {
        if m < n - 1 {
            proof {
                assert(key@.len() < pattern@.len() - 1);
            }
            return false;
        }
        let mut i: usize = 0;
        while i < n - 1
            invariant
                n >= 1,
                i <= n - 1,
                n == pattern@.len(),
                m == key@.len(),
                m >= n - 1,
                ks@ == key@,
                forall|j: int| 0 <= j < i ==> key@[j] == pattern@[j],
            decreases n - 1 - i,
        {
            if ks.get_char(i) != pattern.get_char(i) {
                proof {
                    assert(key@.take(pattern@.len() - 1)[i as int] != pattern@.take(
                        pattern@.len() - 1,
                    )[i as int]);
                }
                return false;
            }
            i += 1;
        }
        proof {
            assert(key@.take(pattern@.len() - 1) =~= pattern@.take(pattern@.len() - 1));
        }
        true
    } else {
        let r = str_eq(ks, pattern);
        proof {
            if r {
                assert(key@ == pattern@);
            }
        }
        r
    }
}

impl MemoryCacheConnection {
    /// An empty in-memory cache.
    pub fn new() -> (r: MemoryCacheConnection)
        ensures
            r.cache_model() == Map::<Seq<char>, Seq<u8>>::empty(),
    {
        let items: Vec<(String, Vec<u8>)> = Vec::new();
        MemoryCacheConnection { items }
    }

    /// Index of the last entry with the key, if any.
    fn rfind_key(&self, key: &str) -> (r: Option<usize>)
        ensures
            match r {
                Some(i) => i < self.items@.len() && self.items@[i as int].0@ == key@ && forall|
                    j: int,
                |
                    i < j < self.items@.len() ==> self.items@[j].0@ != key@,
                None => forall|j: int| 0 <= j < self.items@.len() ==> self.items@[j].0@ != key@,
            },
    {
        let mut i: usize = self.items.len();
        while i > 0
            invariant
                i <= self.items@.len(),
                forall|j: int| i <= j < self.items@.len() ==> self.items@[j].0@ != key@,
            decreases i,
        {
            i -= 1;
            if str_eq(self.items[i].0.as_str(), key) {
                return Some(i);
            }
        }
        None
    }

    /// Removes every entry whose key matches the pattern; returns how many.
    fn remove_matching(&mut self, pattern: &str) -> (n: u32)
        ensures
            final(self).cache_model() == remove_glob(old(self).cache_model(), pattern@),
    {
        let ghost orig = self.items@;
        let mut kept: Vec<(String, Vec<u8>)> = Vec::new();
        let mut removed: u32 = 0;
        let mut i: usize = 0;
        proof {
            assert(orig.take(0) =~= Seq::<(String, Vec<u8>)>::empty());
        }
        while i < self.items.len()
            invariant
                i <= self.items@.len(),
                orig == self.items@,
                kept@.len() == kv_without_glob(orig.take(i as int), pattern@).len(),
                forall|x: int|
                    0 <= x < kept@.len() ==> {
                        let claim = kv_without_glob(orig.take(i as int), pattern@);
                        (#[trigger] kept@[x]).0@ == claim[x].0@ && kept@[x].1@ == claim[x].1@
                    },
            decreases self.items@.len() - i,
        {
            proof {
                assert(orig.take(i + 1).drop_last() =~= orig.take(i as int));
                assert(orig.take(i + 1).last() == orig[i as int]);
            }
            if !glob_matches(pattern, &self.items[i].0) {
                let key = self.items[i].0.clone();
                let val = self.items[i].1.clone();
                let ghost prev = kept@;
                kept.push((key, val));
                proof {
                    assert(kept@ =~= prev.push(kept@[kept@.len() - 1]));
                }
            } else {
                if removed < u32::MAX {
                    removed += 1;
                }
            }
            i += 1;
        }
        proof {
            assert(orig.take(orig.len() as int) =~= orig);
            lemma_map_of_kv_same(kept@, kv_without_glob(orig, pattern@));
            lemma_kv_without_glob(orig, pattern@);
        }
        self.items = kept;
        removed
    }
}

/// Entry lists with pointwise equal views have the same model.
proof fn lemma_map_of_kv_same(a: Seq<(String, Vec<u8>)>, b: Seq<(String, Vec<u8>)>)
    requires
        a.len() == b.len(),
        forall|j: int| 0 <= j < a.len() ==> (#[trigger] a[j]).0@ == b[j].0@ && a[j].1@ == b[j].1@,
    ensures
        map_of_kv(a) == map_of_kv(b),
    decreases a.len(),
{
    if a.len() > 0 {
        assert forall|j: int|
            0 <= j < a.drop_last().len() implies (#[trigger] a.drop_last()[j]).0@
            == b.drop_last()[j].0@ && a.drop_last()[j].1@ == b.drop_last()[j].1@ by {
            assert(a[j].0@ == b[j].0@ && a[j].1@ == b[j].1@);
        }
        lemma_map_of_kv_same(a.drop_last(), b.drop_last());
        assert(a[a.len() - 1].0@ == b[a.len() - 1].0@ && a[a.len() - 1].1@ == b[a.len() - 1].1@);
    }
}

impl CacheConnection for MemoryCacheConnection {
    closed spec fn cache_model(&self) -> Map<Seq<char>, Seq<u8>> {
        map_of_kv(self.items@)
    }

    /// The in-memory cache always answers.
    open spec fn reliable(&self) -> bool {
        true
    }

    fn set(&mut self, key: &str, value: &[u8]) -> (r: Result<(), CacheError>)
    {
        let exact = key.to_owned();
        self.remove_matching_exact(&exact);
        let ghost before = self.items@;
        let v = vstd::slice::slice_to_vec(value);
        self.items.push((exact, v));
        proof {
            assert(self.items@.drop_last() =~= before);
            assert(map_of_kv(before).insert(key@, value@) =~= old(self).cache_model().insert(
                key@,
                value@,
            ));
        }
        Ok(())
    }

    fn get(&mut self, key: &str) -> (r: Result<Vec<u8>, CacheError>)
    {
        proof {
            lemma_map_of_kv_props(self.items@);
        }
        match self.rfind_key(key) {
            Some(i) => Ok(self.items[i].1.clone()),
            None => Err(CacheError::NotFound),
        }
    }

    fn delete(&mut self, key: &str) -> (r: Result<u32, CacheError>)
    {
        Ok(self.remove_matching(key))
    }

    fn duplicate(&self) -> (r: Self)
    {
        let mut items: Vec<(String, Vec<u8>)> = Vec::new();
        let mut i: usize = 0;
        while i < self.items.len()
            invariant
                i <= self.items@.len(),
                items@.len() == i,
                forall|j: int|
                    0 <= j < i ==> (#[trigger] items@[j]).0@ == self.items@[j].0@ && items@[j].1@
                        == self.items@[j].1@,
            decreases self.items@.len() - i,
        {
            let key = self.items[i].0.clone();
            let val = self.items[i].1.clone();
            items.push((key, val));
            i += 1;
        }
        proof {
            lemma_map_of_kv_same(items@, self.items@);
        }
        MemoryCacheConnection { items }
    }
}

impl MemoryCacheConnection {
    /// Removes every entry under exactly this key.
    fn remove_matching_exact(&mut self, key: &String)
        ensures
            final(self).cache_model() == old(self).cache_model().remove(key@),
    {
        let ghost orig = self.items@;
        let mut kept: Vec<(String, Vec<u8>)> = Vec::new();
        let mut i: usize = 0;
        proof {
            assert(orig.take(0) =~= Seq::<(String, Vec<u8>)>::empty());
        }
        while i < self.items.len()
            invariant
                i <= self.items@.len(),
                orig == self.items@,
                kept@.len() == kv_without(orig.take(i as int), key@).len(),
                forall|x: int|
                    0 <= x < kept@.len() ==> {
                        let claim = kv_without(orig.take(i as int), key@);
                        (#[trigger] kept@[x]).0@ == claim[x].0@ && kept@[x].1@ == claim[x].1@
                    },
            decreases self.items@.len() - i,
        {
            proof {
                assert(orig.take(i + 1).drop_last() =~= orig.take(i as int));
                assert(orig.take(i + 1).last() == orig[i as int]);
            }
            if !self.items[i].0.eq(key) {
                let k = self.items[i].0.clone();
                let val = self.items[i].1.clone();
                let ghost prev = kept@;
                kept.push((k, val));
                proof {
                    assert(kept@ =~= prev.push(kept@[kept@.len() - 1]));
                }
            }
            i += 1;
        }
        proof {
            assert(orig.take(orig.len() as int) =~= orig);
            lemma_map_of_kv_same(kept@, kv_without(orig, key@));
            lemma_kv_without(orig, key@);
        }
        self.items = kept;
    }
}

/// The entries whose key differs from `k`.
spec fn kv_without(items: Seq<(String, Vec<u8>)>, k: Seq<char>) -> Seq<(String, Vec<u8>)>
    decreases items.len(),
{
    if items.len() == 0 {
        Seq::empty()
    } else {
        let rest = kv_without(items.drop_last(), k);
        if items.last().0@ == k {
            rest
        } else {
            rest.push(items.last())
        }
    }
}

proof fn lemma_kv_without(items: Seq<(String, Vec<u8>)>, k: Seq<char>)
    ensures
        map_of_kv(kv_without(items, k)) == map_of_kv(items).remove(k),
    decreases items.len(),
{
    if items.len() == 0 {
        assert(map_of_kv(items).remove(k) =~= Map::<Seq<char>, Seq<u8>>::empty());
    } else {
        let pre = items.drop_last();
        lemma_kv_without(pre, k);
        if items.last().0@ == k {
            assert(map_of_kv(items).remove(k) =~= map_of_kv(pre).remove(k));
        } else {
            let ew = kv_without(pre, k).push(items.last());
            assert(ew.drop_last() =~= kv_without(pre, k));
            assert(ew.last() == items.last());
            assert(map_of_kv(pre).remove(k).insert(items.last().0@, items.last().1@)
                =~= map_of_kv(items).remove(k));
        }
    }
}

/// An in-memory cache.
pub struct MemoryCacheStore {
    conn: MemoryCacheConnection,
}

impl MemoryCacheStore {
    /// An empty in-memory cache.
    pub fn new() -> (r: MemoryCacheStore)
        ensures
            r.store_model() == Map::<Seq<char>, Seq<u8>>::empty(),
    {
        MemoryCacheStore { conn: MemoryCacheConnection::new() }
    }
}

impl Cache for MemoryCacheStore {
    type Connection = MemoryCacheConnection;

    closed spec fn store_model(&self) -> Map<Seq<char>, Seq<u8>> {
        self.conn.cache_model()
    }

    /// The in-memory cache is always reachable.
    open spec fn reachable(&self) -> bool {
        true
    }

    fn connect(&self) -> (r: Result<Self::Connection, CacheError>)
    {
        Ok(self.conn.duplicate())
    }
}

} // verus!
