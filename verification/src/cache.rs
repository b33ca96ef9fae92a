use vstd::prelude::*;
use vstd::map::*;
use crate::tokens::{is_prefix, le_bytes, lemma_le_bytes_injective, AsTokenSlice, Tokens};

verus! {

/// The byte-keyed trie shape the cache uses.
pub type ByteTrie = qp_trie::Trie<Vec<u8>, u64>;

/// The empty byte-keyed contents.
pub open spec fn empty_contents() -> Map<Seq<u8>, u64> {
    Map::empty()
}

/// What a prefix trie holds: a map from byte keys to state handles.
pub uninterp spec fn trie_contents(t: ByteTrie) -> Map<Seq<u8>, u64>;

#[verifier::external_type_specification]
#[verifier::external_body]
#[verifier::reject_recursive_types(K)]
#[verifier::reject_recursive_types(V)]
pub struct ExTrie<K, V>(qp_trie::Trie<K, V>);

/// Relies on qp_trie::Trie::new: a freshly built trie holds no entries.
#[verifier::external_body]
fn trie_new() -> (out: ByteTrie)
    ensures
        trie_contents(out) == empty_contents(),
{
    qp_trie::Trie::new()
}

/// Relies on qp_trie::Trie::insert: after the call the key maps to the value,
/// no other entry changes, and the displaced value (if any) comes back.
#[verifier::external_body]
fn trie_insert(t: &mut ByteTrie, k: &Vec<u8>, v: u64) -> (r: Option<u64>)
    ensures
        trie_contents(*final (t)) == trie_contents(*old(t)).insert(k@, v),
        r == if trie_contents(*old(t)).contains_key(k@) {
            Some(trie_contents(*old(t))[k@])
        } else {
            None::<u64>
        },
{
    t.insert(k.clone(), v)
}

/// Relies on qp_trie::Trie::remove: the entry of the key (if any) leaves the
/// trie and its value comes back; no other entry changes.
#[verifier::external_body]
fn trie_remove(t: &mut ByteTrie, k: &Vec<u8>) -> (r: Option<u64>)
    ensures
        trie_contents(*final (t)) == trie_contents(*old(t)).remove(k@),
        r == if trie_contents(*old(t)).contains_key(k@) {
            Some(trie_contents(*old(t))[k@])
        } else {
            None::<u64>
        },
{
    t.remove(&k[..])
}

/// Relies on qp_trie::Trie::contains_key.
#[verifier::external_body]
fn trie_contains(t: &ByteTrie, k: &Vec<u8>) -> (r: bool)
    ensures
        r == trie_contents(*t).contains_key(k@),
{
    t.contains_key(&k[..])
}

/// The token-level reading of a byte-keyed map: each token sequence is looked
/// up under its little-endian byte image.
pub open spec fn token_map(m: Map<Seq<u8>, u64>) -> Map<Seq<u16>, u64> {
    Map::new(|s: Seq<u16>| m.contains_key(le_bytes(s)), |s: Seq<u16>| m[le_bytes(s)])
}

proof fn lemma_token_map_insert(m: Map<Seq<u8>, u64>, k: Seq<u16>, v: u64)
    ensures
        token_map(m.insert(le_bytes(k), v)) == token_map(m).insert(k, v),
{
    let lhs = token_map(m.insert(le_bytes(k), v));
    let rhs = token_map(m).insert(k, v);
    assert_maps_equal!(lhs, rhs, s => {
        if le_bytes(s) == le_bytes(k) && s != k {
            lemma_le_bytes_injective(s, k);
        }
    });
}

proof fn lemma_token_map_remove(m: Map<Seq<u8>, u64>, k: Seq<u16>)
    ensures
        token_map(m.remove(le_bytes(k))) == token_map(m).remove(k),
{
    let lhs = token_map(m.remove(le_bytes(k)));
    let rhs = token_map(m).remove(k);
    assert_maps_equal!(lhs, rhs, s => {
        if le_bytes(s) == le_bytes(k) && s != k {
            lemma_le_bytes_injective(s, k);
        }
    });
}

/// The prefix-state cache: a mapping from token sequences to handles of
/// serialized model states, indexed as a byte trie whose breakpoints land on
/// token boundaries. The handles name snapshots held by the caller; the cache
/// allocates them so that every snapshot taken gets a fresh name.
pub struct PrefixStateCache {
    trie: ByteTrie,
    next_handle: u64,
}

impl PrefixStateCache {
    /// The entries of the cache, token-addressed.
    pub closed spec fn view(&self) -> Map<Seq<u16>, u64> {
        token_map(trie_contents(self.trie))
    }

    /// The next handle the cache will hand out.
    pub closed spec fn next(&self) -> u64 {
        self.next_handle
    }

    pub fn new() -> (r: PrefixStateCache)
        ensures
            r@ == Map::<Seq<u16>, u64>::empty(),
            r.next() == 0,
    {
        let r = PrefixStateCache { trie: trie_new(), next_handle: 0 };
        proof {
            assert(r@ =~= Map::<Seq<u16>, u64>::empty());
        }
        r
    }

    pub fn contains_key(&self, k: &Tokens) -> (r: bool)
        ensures
            r == self@.contains_key(k@),
    {
        let key = k.as_token_slice();
        trie_contains(&self.trie, &key.0)
    }

    /// Insert an entry under an existing handle.
    pub fn insert(&mut self, k: &Tokens, h: u64)
        ensures
            final (self)@ == old(self)@.insert(k@, h),
            final (self).next() == old(self).next(),
    {
        let key = k.as_token_slice();
        let ghost m = trie_contents(self.trie);
        let _ = trie_insert(&mut self.trie, &key.0, h);
        proof {
            lemma_token_map_insert(m, k@, h);
        }
    }

    /// Insert an entry under a fresh handle, which names the snapshot the
    /// caller is about to take. Handle numbering saturates at the top, which
    /// no practical run reaches.
    pub fn insert_fresh(&mut self, k: &Tokens) -> (h: u64)
        ensures
            h == old(self).next(),
            final (self)@ == old(self)@.insert(k@, h),
            final (self).next() == if old(self).next() == u64::MAX {
                u64::MAX
            } else {
                (old(self).next() + 1) as u64
            },
    {
        let h = self.next_handle;
        if self.next_handle < u64::MAX {
            self.next_handle = self.next_handle + 1;
        }
        self.insert(k, h);
        h
    }

    /// Remove an entry, returning its handle.
    pub fn remove(&mut self, k: &Tokens) -> (r: Option<u64>)
        ensures
            final (self)@ == old(self)@.remove(k@),
            final (self).next() == old(self).next(),
            r == if old(self)@.contains_key(k@) {
                Some(old(self)@[k@])
            } else {
                None::<u64>
            },
    {
        let key = k.as_token_slice();
        let ghost m = trie_contents(self.trie);
        let r = trie_remove(&mut self.trie, &key.0);
        proof {
            lemma_token_map_remove(m, k@);
        }
        r
    }

    /// Find the longest cached prefix of `query`, hand out its handle, and
    /// keep the entry: the handle is removed and re-inserted under the same
    /// key, so the caller gets a snapshot to load while the cache still
    /// serves the key. A miss returns the empty prefix and no handle; empty
    /// keys are never reused.
    pub fn checkout(&mut self, query: &Tokens) -> (r: (Tokens, Option<u64>))
        ensures
            final (self)@ == old(self)@,
            final (self).next() == old(self).next(),
            is_prefix(r.0@, query@),
            match r.1 {
                Some(h) => r.0@.len() > 0 && old(self)@.contains_key(r.0@) && h == old(
                    self,
                )@[r.0@],
                None => r.0@.len() == 0,
            },
            forall|p: Seq<u16>|
                old(self)@.contains_key(p) && is_prefix(p, query@) && p.len() > 0 ==> p.len()
                    <= r.0@.len(),
    {
        let max_len = query.len();
        proof {
            assert forall|p: Seq<u16>|
                self@.contains_key(p) && is_prefix(p, query@) && p.len() > 0 implies p.len()
                <= max_len by {}
        }
        let mut len: usize = max_len;
        let mut found = false;
        while len > 0 && !found
            invariant
                len <= max_len,
                max_len <= query@.len(),
                found ==> len > 0 && self@.contains_key(query@.subrange(0, len as int)),
                forall|p: Seq<u16>|
                    self@.contains_key(p) && is_prefix(p, query@) && p.len() > 0 ==> p.len()
                        <= len,
            decreases len + if found {
                0int
            } else {
                1int
            },
        {
            let cand = query.slice(0, len);
            if self.contains_key(&cand) {
                found = true;
            } else {
                proof {
                    assert forall|p: Seq<u16>|
                        self@.contains_key(p) && is_prefix(p, query@) && p.len() > 0 implies p.len()
                        <= len - 1 by {
                        if p.len() == len {
                            assert(p =~= query@.subrange(0, len as int));
                        }
                    }
                }
                len = len - 1;
            }
        }
        if found {
            let p = query.slice(0, len);
            let pb = p.as_token_slice();
            let ghost m = trie_contents(self.trie);
            let r = trie_remove(&mut self.trie, &pb.0);
            match r {
                Some(handle) => {
                    let _ = trie_insert(&mut self.trie, &pb.0, handle);
                    proof {
                        assert(trie_contents(self.trie) =~= m);
                    }
                    (p, Some(handle))
                },
                None => {
                    proof {
                        assert(false);
                        assert(Seq::<u16>::empty() =~= query@.subrange(0, 0));
                    }
                    (Tokens::empty(), None)
                },
            }
        } else {
            proof {
                assert(Seq::<u16>::empty() =~= query@.subrange(0, 0));
            }
            (Tokens::empty(), None)
        }
    }
}

/// The cache round trip: inserting an entry and then removing the same key
/// yields exactly the inserted handle and restores the map to its prior
/// state without that key. `PrefixStateCache::insert` and `remove` promise
/// these map transitions, so the law holds of the executable cache.
pub proof fn lemma_cache_round_trip(m: Map<Seq<u16>, u64>, k: Seq<u16>, v: u64)
    ensures
        m.insert(k, v).contains_key(k),
        m.insert(k, v)[k] == v,
        m.insert(k, v).remove(k) == m.remove(k),
{
    assert(m.insert(k, v).remove(k) =~= m.remove(k));
}

} // verus!
