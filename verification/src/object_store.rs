//! Content-addressed object storage: immutable byte blobs keyed by the SHA-1
//! digest of their content. Storing is idempotent and never overwrites; the
//! key of every stored object is exactly the digest of its bytes.
use crate::digest::{sha1_hex, sha1_hex_of};
use crate::listing::{lemma_listed_insert, lemma_listed_remove, listed_keys};
use crate::RepoError;
use vstd::hash_map::StringHashMap;
use vstd::prelude::*;
use vstd::slice::slice_to_vec;

verus! {

/// The contents of a store `m` after storing `data`: content is keyed by its
/// digest, and a key already present is never overwritten.
pub open spec fn store_spec(m: Map<Seq<char>, Seq<u8>>, data: Seq<u8>) -> Map<Seq<char>, Seq<u8>> {
    if m.contains_key(sha1_hex_of(data)) {
        m
    } else {
        m.insert(sha1_hex_of(data), data)
    }
}

/// What retrieving `key` from a store with contents `m` yields.
pub open spec fn retrieve_spec(m: Map<Seq<char>, Seq<u8>>, key: Seq<char>) -> Result<
    Seq<u8>,
    RepoError,
> {
    if key.len() < 2 {
        Err(RepoError::InvalidKey)
    } else if m.contains_key(key) {
        Ok(m[key])
    } else {
        Err(RepoError::NotFound)
    }
}

/// `p` is a prefix of `k`.
pub open spec fn has_prefix(k: Seq<char>, p: Seq<char>) -> bool {
    p.len() <= k.len() && k.subrange(0, p.len() as int) == p
}

/// A content-addressed store of immutable byte blobs. Abstractly, a map from
/// hex digest to content bytes.
pub struct ObjectStore {
    map: StringHashMap<Vec<u8>>,
    names: Vec<crate::Hash>,
}

impl View for ObjectStore {
    type V = Map<Seq<char>, Seq<u8>>;

    closed spec fn view(&self) -> Map<Seq<char>, Seq<u8>> {
        Map::new(|k: Seq<char>| self.map@.contains_key(k), |k: Seq<char>| self.map@[k]@)
    }
}

impl ObjectStore {
    /// The keys of the store, in insertion order.
    pub closed spec fn key_seq(&self) -> Seq<Seq<char>> {
        self.names@.map_values(|n: crate::Hash| n@)
    }

    /// Well-formedness: every key is exactly the digest of the bytes stored
    /// under it (tamper evidence) and is 40 characters long, and the key
    /// listing names each key once.
    pub open spec fn wf(&self) -> bool {
        &&& forall|k: Seq<char>| self@.contains_key(k) ==> k == sha1_hex_of(#[trigger] self@[k])
        &&& forall|k: Seq<char>| #[trigger] self@.contains_key(k) ==> k.len() == 40
        &&& listed_keys(self@, self.key_seq())
    }

    /// What well-formedness guarantees about the key listing: the listed
    /// keys are exactly the stored digests, each listed once.
    pub proof fn lemma_keys(&self)
        requires
            self.wf(),
        ensures
            self.key_seq().no_duplicates(),
            forall|k: Seq<char>| self@.contains_key(k) <==> self.key_seq().contains(k),
    {
        assert forall|k: Seq<char>| self.key_seq().contains(k) implies self@.contains_key(k) by {
            let i = choose|i: int| 0 <= i < self.key_seq().len() && self.key_seq()[i] == k;
            assert(self@.contains_key(self.key_seq()[i]));
        }
    }

    /// An empty store.
    pub fn new() -> (r: ObjectStore)
        ensures
            r.wf(),
            r@ == Map::<Seq<char>, Seq<u8>>::empty(),
            r.key_seq() == Seq::<Seq<char>>::empty(),
    {
        let r = ObjectStore { map: StringHashMap::new(), names: Vec::new() };
        proof {
            assert(r@ =~= Map::<Seq<char>, Seq<u8>>::empty());
            assert(r.key_seq() =~= Seq::<Seq<char>>::empty());
        }
        r
    }

    /// Stores `data` under the digest of its bytes and returns that digest.
    /// Idempotent: if an object with this digest is already present, nothing
    /// is written.
    pub fn store_object(&mut self, data: &Vec<u8>) -> (r: crate::Hash)
        requires
            old(self).wf(),
        ensures
            final(self).wf(),
            r@ == sha1_hex_of(data@),
            r@.len() == 40,
            final(self)@ == store_spec(old(self)@, data@),
            old(self)@.contains_key(sha1_hex_of(data@)) ==> final(self).key_seq() == old(
                self,
            ).key_seq(),
            !old(self)@.contains_key(sha1_hex_of(data@)) ==> final(self).key_seq() == old(
                self,
            ).key_seq().push(sha1_hex_of(data@)),
    {
        let h = sha1_hex(data);
        if self.map.contains_key(h.as_str()) {
            proof {
                assert(self@ =~= store_spec(old(self)@, data@));
            }
            h
        } else {
            let content = slice_to_vec(data.as_slice());
            self.map.insert(h.clone(), content);
            self.names.push(h.clone());
            proof {
                assert(self@ =~= old(self)@.insert(sha1_hex_of(data@), data@));
                assert(self.key_seq() =~= old(self).key_seq().push(sha1_hex_of(data@)));
                lemma_listed_insert(old(self)@, old(self).key_seq(), sha1_hex_of(data@), data@);
                assert forall|k: Seq<char>| self@.contains_key(k) implies k == sha1_hex_of(
                    self@[k],
                ) && k.len() == 40 by {
                    if k != sha1_hex_of(data@) {
                        assert(old(self)@.contains_key(k));
                    }
                }
            }
            h
        }
    }

    /// Returns the bytes previously stored under `hash`: `InvalidKey` if the
    /// key is shorter than the sharding prefix, `NotFound` if no object is
    /// stored under it, and otherwise exactly the stored bytes.
    pub fn retrieve_object(&self, hash: &crate::Hash) -> (r: Result<Vec<u8>, RepoError>)
        ensures
            match r {
                Ok(v) => retrieve_spec(self@, hash@) == Ok::<Seq<u8>, RepoError>(v@),
                Err(e) => retrieve_spec(self@, hash@) == Err::<Seq<u8>, RepoError>(e),
            },
    {
        if hash.as_str().unicode_len() < 2 {
            return Err(RepoError::InvalidKey);
        }
        match self.map.get(hash.as_str()) {
            Some(v) => Ok(slice_to_vec(v.as_slice())),
            None => Err(RepoError::NotFound),
        }
    }

    /// True if an object is stored under `hash`.
    pub fn contains(&self, hash: &crate::Hash) -> (r: bool)
        ensures
            r == self@.contains_key(hash@),
    {
        self.map.contains_key(hash.as_str())
    }

    /// The number of stored objects.
    pub fn len(&self) -> (r: usize)
        requires
            self.wf(),
        ensures
            r == self.key_seq().len(),
    {
        self.names.len()
    }

    /// Removes the object stored under `hash`; `NotFound` if absent.
    pub fn delete_data(&mut self, hash: &crate::Hash) -> (r: Result<(), RepoError>)
        requires
            old(self).wf(),
        ensures
            final(self).wf(),
            r is Ok <==> old(self)@.contains_key(hash@),
            final(self)@ == old(self)@.remove(hash@),
            r is Err ==> r == Err::<(), RepoError>(RepoError::NotFound) && final(self)@ == old(
                self,
            )@,
    {
        let n = self.names.len();
        let mut i: usize = 0;
        while i < n
            invariant
                old(self).wf(),
                n == self.names.len(),
                i <= n,
                *self == *old(self),
                forall|j: int| 0 <= j < i ==> old(self).key_seq()[j] != hash@,
            decreases n - i,
        {
            if self.names[i].eq(hash) {
                proof {
                    let ks = old(self).key_seq();
                    assert(ks[i as int] == hash@);
                    assert(ks.contains(hash@));
                    old(self).lemma_keys();
                    assert(old(self)@.contains_key(hash@));
                }
                self.names.remove(i);
                self.map.remove(hash.as_str());
                proof {
                    let ks = old(self).key_seq();
                    ks.remove_ensures(i as int);
                    assert forall|j: int|
                        0 <= j < self.key_seq().len() implies self.key_seq()[j] == ks.remove(
                        i as int,
                    )[j] by {
                        if j < i {
                            assert(self.names@[j] == old(self).names@[j]);
                        } else {
                            assert(self.names@[j] == old(self).names@[j + 1]);
                        }
                    }
                    assert(self.key_seq() =~= ks.remove(i as int));
                    assert(self@ =~= old(self)@.remove(hash@));
                    lemma_listed_remove(old(self)@, ks, i as int);
                    assert forall|k: Seq<char>| self@.contains_key(k) implies k == sha1_hex_of(
                        self@[k],
                    ) && k.len() == 40 by {
                        assert(old(self)@.contains_key(k));
                    }
                }
                return Ok(());
            }
            i += 1;
        }
        proof {
            if old(self)@.contains_key(hash@) {
                assert(old(self).key_seq().contains(hash@));
                let j = choose|j: int|
                    0 <= j < old(self).key_seq().len() && old(self).key_seq()[j] == hash@;
                assert(false);
            }
            assert(self@ =~= old(self)@.remove(hash@));
        }
        Err(RepoError::NotFound)
    }

    /// Lists the stored digests that begin with `prefix` (the sharding view
    /// of the store): every returned key is a stored key with that prefix,
    /// and every such key is returned, once.
    pub fn list_files(&self, prefix: &String) -> (r: Vec<crate::Hash>)
        requires
            self.wf(),
        ensures
            r@.map_values(|n: crate::Hash| n@).no_duplicates(),
            forall|j: int|
                0 <= j < r@.len() ==> self@.contains_key(#[trigger] r@[j]@) && has_prefix(
                    r@[j]@,
                    prefix@,
                ),
            forall|k: Seq<char>|
                self@.contains_key(k) && has_prefix(k, prefix@) ==> r@.map_values(
                    |n: crate::Hash| n@,
                ).contains(k),
    {
        let n = self.names.len();
        let mut r: Vec<crate::Hash> = Vec::new();
        let mut i: usize = 0;
        while i < n
            invariant
                self.wf(),
                n == self.names.len(),
                i <= n,
                r@.map_values(|x: crate::Hash| x@).no_duplicates(),
                forall|j: int|
                    0 <= j < r@.len() ==> self@.contains_key(#[trigger] r@[j]@) && has_prefix(
                        r@[j]@,
                        prefix@,
                    ),
                forall|j: int|
                    0 <= j < r@.len() ==> exists|q: int|
                        0 <= q < i && self.key_seq()[q] == #[trigger] r@[j]@,
                forall|j: int|
                    0 <= j < i && has_prefix(#[trigger] self.key_seq()[j], prefix@)
                        ==> r@.map_values(|x: crate::Hash| x@).contains(self.key_seq()[j]),
            decreases n - i,
        {
            proof {
                assert(self@.contains_key(self.key_seq()[i as int]));
            }
            let name = &self.names[i];
            if str_has_prefix(name, prefix) {
                let ghost before = r@.map_values(|x: crate::Hash| x@);
                proof {
                    if before.contains(name@) {
                        let j = choose|j: int| 0 <= j < before.len() && before[j] == name@;
                        let ks = self.key_seq();
                        assert(r@[j]@ == name@);
                        let q = choose|q: int| 0 <= q < i && ks[q] == r@[j]@;
                        assert(ks[q] == ks[i as int]);
                        assert(false);
                    }
                }
                r.push(name.clone());
                proof {
                    assert forall|j: int| 0 <= j < r@.len() implies exists|q: int|
                        0 <= q < i + 1 && self.key_seq()[q] == #[trigger] r@[j]@ by {
                        if j < r@.len() - 1 {
                            let q = choose|q: int|
                                0 <= q < i && self.key_seq()[q] == r@[j]@;
                            assert(0 <= q < i + 1 && self.key_seq()[q] == r@[j]@);
                        } else {
                            assert(self.key_seq()[i as int] == r@[j]@);
                        }
                    }
                }
                proof {
                    assert(r@.map_values(|x: crate::Hash| x@) =~= before.push(name@));
                    assert forall|j: int|
                        0 <= j < i + 1 && has_prefix(
                            #[trigger] self.key_seq()[j],
                            prefix@,
                        ) implies r@.map_values(|x: crate::Hash| x@).contains(
                        self.key_seq()[j],
                    ) by {
                        let m = r@.map_values(|x: crate::Hash| x@);
                        if j < i {
                            assert(before.contains(self.key_seq()[j]));
                            let q = choose|q: int|
                                0 <= q < before.len() && before[q] == self.key_seq()[j];
                            assert(m[q] == self.key_seq()[j]);
                        } else {
                            assert(m[m.len() - 1] == self.key_seq()[j]);
                        }
                    }
                }
            }
            i += 1;
        }
        proof {
            assert forall|k: Seq<char>|
                self@.contains_key(k) && has_prefix(k, prefix@) implies r@.map_values(
                |x: crate::Hash| x@,
            ).contains(k) by {
                let ks = self.key_seq();
                assert(ks.contains(k));
                let j = choose|j: int| 0 <= j < ks.len() && ks[j] == k;
                assert(has_prefix(ks[j], prefix@));
            }
        }
        r
    }

    /// All stored digests, in insertion order.
    pub fn get_object_hashes(&self) -> (r: Vec<crate::Hash>)
        ensures
            r@.map_values(|n: crate::Hash| n@) == self.key_seq(),
    {
        let n = self.names.len();
        let mut r: Vec<crate::Hash> = Vec::new();
        let mut i: usize = 0;
        while i < n
            invariant
                n == self.names.len(),
                i <= n,
                r@.len() == i,
                forall|j: int| 0 <= j < i ==> #[trigger] r@[j]@ == self.key_seq()[j],
            decreases n - i,
        {
            r.push(self.names[i].clone());
            i += 1;
        }
        proof {
            assert(r@.map_values(|x: crate::Hash| x@) =~= self.key_seq());
        }
        r
    }

    /// An independent copy of the store, with the same contents.
    pub fn duplicate(&self) -> (r: ObjectStore)
        requires
            self.wf(),
        ensures
            r.wf(),
            r@ == self@,
    {
        let mut r = ObjectStore::new();
        r.merge_missing(self);
        proof {
            assert(r@ =~= self@);
        }
        r
    }

    /// Copies into `self` every object of `src` whose digest is not yet
    /// present; objects already present are left untouched.
    pub fn merge_missing(&mut self, src: &ObjectStore)
        requires
            old(self).wf(),
            src.wf(),
        ensures
            final(self).wf(),
            final(self)@ == src@.union_prefer_right(old(self)@),
    {
        let n = src.names.len();
        let mut i: usize = 0;
        while i < n
            invariant
                self.wf(),
                src.wf(),
                n == src.names.len(),
                i <= n,
                forall|k: Seq<char>|
                    #[trigger] old(self)@.contains_key(k) ==> self@.contains_key(k) && self@[k]
                        == old(self)@[k],
                forall|k: Seq<char>|
                    #[trigger] self@.contains_key(k) ==> old(self)@.contains_key(k) || (
                    src@.contains_key(k) && self@[k] == src@[k] && src.key_seq().subrange(
                        0,
                        i as int,
                    ).contains(k)),
                forall|j: int| 0 <= j < i ==> self@.contains_key(#[trigger] src.key_seq()[j]),
            decreases n - i,
        {
            let name = &src.names[i];
            proof {
                assert(src@.contains_key(src.key_seq()[i as int]));
                assert(src.map@.contains_key(name@));
            }
            let ghost prev = self@;
            let ghost prev_ks = self.key_seq();
            let ghost ks = src.key_seq();
            if !self.map.contains_key(name.as_str()) {
                let v = src.map.get(name.as_str()).unwrap();
                let content = slice_to_vec(v.as_slice());
                self.map.insert(name.clone(), content);
                self.names.push(name.clone());
                proof {
                    assert(self@ =~= prev.insert(name@, src@[name@]));
                    assert(self.key_seq() =~= prev_ks.push(name@));
                    lemma_listed_insert(prev, prev_ks, name@, src@[name@]);
                    assert forall|k: Seq<char>| self@.contains_key(k) implies k == sha1_hex_of(
                        self@[k],
                    ) && k.len() == 40 by {
                        if k != name@ {
                            assert(prev.contains_key(k));
                        } else {
                            assert(src@.contains_key(k));
                        }
                    }
                }
            }
            proof {
                assert forall|k: Seq<char>| #[trigger] self@.contains_key(k) implies old(
                    self,
                )@.contains_key(k) || (src@.contains_key(k) && self@[k] == src@[k]
                    && ks.subrange(0, i + 1).contains(k)) by {
                    if !old(self)@.contains_key(k) {
                        if prev.contains_key(k) {
                            let q = choose|q: int|
                                0 <= q < i && ks.subrange(0, i as int)[q] == k;
                            assert(ks.subrange(0, i + 1)[q] == k);
                        } else {
                            assert(k == ks[i as int]);
                            assert(ks.subrange(0, i + 1)[i as int] == k);
                        }
                    }
                }
            }
            i += 1;
        }
        proof {
            src.lemma_keys();
            let ks = src.key_seq();
            assert forall|k: Seq<char>| src@.contains_key(k) implies self@.contains_key(k) by {
                assert(ks.contains(k));
                let j = choose|j: int| 0 <= j < ks.len() && ks[j] == k;
                assert(self@.contains_key(ks[j]));
            }
            assert(self@ =~= src@.union_prefer_right(old(self)@));
        }
    }
}

/// Content addressing: after storing `b`, the bytes stored under the digest
/// of `b` are exactly `b`, and retrieving that digest returns them. The
/// first premise rules out a digest collision: if some object already sits
/// under the digest of `b`, it is `b` itself. The second holds at every
/// actual call, since a rendered digest is 40 characters.
pub proof fn lemma_content_addressing(m: Map<Seq<char>, Seq<u8>>, b: Seq<u8>)
    requires
        m.contains_key(sha1_hex_of(b)) ==> m[sha1_hex_of(b)] == b,
        sha1_hex_of(b).len() >= 2,
    ensures
        store_spec(m, b).contains_key(sha1_hex_of(b)),
        store_spec(m, b)[sha1_hex_of(b)] == b,
        retrieve_spec(store_spec(m, b), sha1_hex_of(b)) == Ok::<Seq<u8>, RepoError>(b),
{
}

/// Deduplication: storing the same bytes twice is the same as storing them
/// once, and one store adds at most the one key, so byte-identical inputs
/// end up as exactly one persisted object.
pub proof fn lemma_store_dedup(m: Map<Seq<char>, Seq<u8>>, b: Seq<u8>)
    ensures
        store_spec(store_spec(m, b), b) == store_spec(m, b),
        store_spec(m, b).dom() == m.dom().insert(sha1_hex_of(b)),
{
    if m.contains_key(sha1_hex_of(b)) {
        assert(store_spec(m, b).dom() =~= m.dom().insert(sha1_hex_of(b)));
    } else {
        assert(store_spec(m, b).dom() =~= m.dom().insert(sha1_hex_of(b)));
    }
}

/// `p@` is a prefix of `s@`.
pub fn str_has_prefix(s: &String, p: &String) -> (r: bool)
    ensures
        r == has_prefix(s@, p@),
{
    let sl = s.as_str().unicode_len();
    let pl = p.as_str().unicode_len();
    if pl > sl {
        return false;
    }
    let mut i: usize = 0;
    while i < pl
        invariant
            i <= pl,
            pl == p@.len(),
            sl == s@.len(),
            pl <= sl,
            forall|j: int| 0 <= j < i ==> s@[j] == p@[j],
        decreases pl - i,
    {
        if s.as_str().get_char(i) != p.as_str().get_char(i) {
            proof {
                assert(s@.subrange(0, p@.len() as int)[i as int] != p@[i as int]);
            }
            return false;
        }
        i += 1;
    }
    proof {
        assert(s@.subrange(0, p@.len() as int) =~= p@);
    }
    true
}

} // verus!
