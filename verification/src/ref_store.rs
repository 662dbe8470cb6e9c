//! The reference store: a durable mapping from ref name (branch, tag, HEAD)
//! to an optional commit hash. Refs are mutable named pointers into the
//! commit graph; `HEAD` is the distinguished ref of the checked-out commit.
use crate::listing::{lemma_listed_insert, lemma_listed_update, listed_keys};
use crate::RepoError;
use vstd::hash_map::StringHashMap;
use vstd::prelude::*;
use vstd::string::StringExecFns;

verus! {

/// The kind of a named reference.
#[derive(Clone, Copy, Debug, PartialEq, Eq, Structural)]
pub enum RefType {
    Branch,
    Tag,
    Head,
}

/// A named reference as handed to callers: its name, kind, and the commit it
/// points at, absent if it was never bound.
pub struct Ref {
    pub name: String,
    pub ref_type: RefType,
    pub commit_hash: Option<crate::Hash>,
}

/// The stored binding of one ref name.
pub struct RefEntry {
    pub ref_type: RefType,
    pub commit_hash: Option<crate::Hash>,
}

/// The mathematical value of a binding.
#[verifier::ext_equal]
pub struct RefInfo {
    pub ref_type: RefType,
    pub commit_hash: Option<Seq<char>>,
}

impl View for RefEntry {
    type V = RefInfo;

    open spec fn view(&self) -> RefInfo {
        RefInfo {
            ref_type: self.ref_type,
            commit_hash: match self.commit_hash {
                Some(h) => Some(h@),
                None => None,
            },
        }
    }
}

/// The name of the distinguished ref.
pub open spec fn head_key() -> Seq<char> {
    "HEAD"@
}

/// What `get_ref` yields on a store with bindings `m`: the binding, or an
/// unbound branch ref if the name was never bound.
pub open spec fn get_ref_spec(m: Map<Seq<char>, RefInfo>, name: Seq<char>) -> RefInfo {
    if m.contains_key(name) {
        m[name]
    } else {
        RefInfo { ref_type: RefType::Branch, commit_hash: None }
    }
}

/// The commit hash `HEAD` points at in `m`, if any.
pub open spec fn head_of(m: Map<Seq<char>, RefInfo>) -> Option<Seq<char>> {
    if m.contains_key(head_key()) {
        m[head_key()].commit_hash
    } else {
        None
    }
}

/// A store of named references. Abstractly, a map from ref name to binding.
pub struct RefStore {
    map: StringHashMap<RefEntry>,
    names: Vec<String>,
}

impl View for RefStore {
    type V = Map<Seq<char>, RefInfo>;

    closed spec fn view(&self) -> Map<Seq<char>, RefInfo> {
        Map::new(|k: Seq<char>| self.map@.contains_key(k), |k: Seq<char>| self.map@[k]@)
    }
}

fn clone_opt_hash(h: &Option<crate::Hash>) -> (r: Option<crate::Hash>)
    ensures
        (match r {
            Some(x) => h matches Some(y) && x@ == y@,
            None => h is None,
        }),
{
    match h {
        Some(x) => Some(x.clone()),
        None => None,
    }
}

impl RefStore {
    /// The ref names of the store, in insertion order.
    pub closed spec fn key_seq(&self) -> Seq<Seq<char>> {
        self.names@.map_values(|n: String| n@)
    }

    /// Well-formedness: the name listing names each bound ref once.
    pub open spec fn wf(&self) -> bool {
        listed_keys(self@, self.key_seq())
    }

    /// The listed names are exactly the bound names, each listed once.
    pub proof fn lemma_keys(&self)
        requires
            self.wf(),
        ensures
            self.key_seq().no_duplicates(),
            forall|k: Seq<char>| self@.contains_key(k) <==> self.key_seq().contains(k),
    {
        assert forall|k: Seq<char>| self.key_seq().contains(k) implies self@.contains_key(k) by {
            let i = choose|i: int| 0 <= i < self.key_seq().len() && self.key_seq()[i] == k;
            assert(self@.contains_key(self.key_seq()[i]));
        }
    }

    /// An empty store.
    pub fn new() -> (r: RefStore)
        ensures
            r.wf(),
            r@ == Map::<Seq<char>, RefInfo>::empty(),
    {
        let r = RefStore { map: StringHashMap::new(), names: Vec::new() };
        proof {
            assert(r@ =~= Map::<Seq<char>, RefInfo>::empty());
            assert(r.key_seq() =~= Seq::<Seq<char>>::empty());
        }
        r
    }

    /// Creates a new named pointer bound to `hash`; fails with
    /// `AlreadyExists`, changing nothing, exactly when `name` is already
    /// bound.
    pub fn create_ref(&mut self, ref_type: RefType, name: String, hash: Option<crate::Hash>) -> (r:
        Result<(), RepoError>)
        requires
            old(self).wf(),
        ensures
            final(self).wf(),
            r is Ok <==> !old(self)@.contains_key(name@),
            r is Ok ==> final(self)@ == old(self)@.insert(
                name@,
                RefInfo {
                    ref_type,
                    commit_hash: match hash {
                        Some(h) => Some(h@),
                        None => None,
                    },
                },
            ),
            r is Err ==> r == Err::<(), RepoError>(RepoError::AlreadyExists) && final(self)@ == old(
                self,
            )@,
    {
        if self.map.contains_key(name.as_str()) {
            return Err(RepoError::AlreadyExists);
        }
        let entry = RefEntry { ref_type, commit_hash: hash };
        let ghost info = entry@;
        self.map.insert(name.clone(), entry);
        self.names.push(name);
        proof {
            assert(self@ =~= old(self)@.insert(self.names@.last()@, info));
            assert(self.key_seq() =~= old(self).key_seq().push(self.names@.last()@));
            lemma_listed_insert(old(self)@, old(self).key_seq(), self.names@.last()@, info);
        }
        Ok(())
    }

    /// Rebinds an existing ref to `hash`, keeping its kind; fails with
    /// `NotFound`, changing nothing, exactly when `name` is not bound.
    pub fn update_ref(&mut self, name: &String, hash: &crate::Hash) -> (r: Result<(), RepoError>)
        requires
            old(self).wf(),
        ensures
            final(self).wf(),
            r is Ok <==> old(self)@.contains_key(name@),
            r is Ok ==> final(self)@ == old(self)@.insert(
                name@,
                RefInfo { ref_type: old(self)@[name@].ref_type, commit_hash: Some(hash@) },
            ),
            r is Err ==> r == Err::<(), RepoError>(RepoError::NotFound) && final(self)@ == old(
                self,
            )@,
    {
        let ref_type = match self.map.get(name.as_str()) {
            Some(e) => e.ref_type,
            None => {
                return Err(RepoError::NotFound);
            },
        };
        let entry = RefEntry { ref_type, commit_hash: Some(hash.clone()) };
        let ghost info = entry@;
        self.map.insert(name.clone(), entry);
        proof {
            assert(self@ =~= old(self)@.insert(name@, info));
            assert(self.key_seq() == old(self).key_seq());
            lemma_listed_update(old(self)@, old(self).key_seq(), name@, info);
        }
        Ok(())
    }

    /// Returns the current binding of `name`, or an unbound branch ref if
    /// the name was never bound; never fails.
    pub fn get_ref(&self, name: &String) -> (r: Ref)
        ensures
            r.name@ == name@,
            r.ref_type == get_ref_spec(self@, name@).ref_type,
            (match r.commit_hash {
                Some(h) => get_ref_spec(self@, name@).commit_hash == Some(h@),
                None => get_ref_spec(self@, name@).commit_hash is None,
            }),
    {
        match self.map.get(name.as_str()) {
            Some(e) => Ref {
                name: name.clone(),
                ref_type: e.ref_type,
                commit_hash: clone_opt_hash(&e.commit_hash),
            },
            None => Ref { name: name.clone(), ref_type: RefType::Branch, commit_hash: None },
        }
    }

    /// True if `name` is bound.
    pub fn contains(&self, name: &String) -> (r: bool)
        ensures
            r == self@.contains_key(name@),
    {
        self.map.contains_key(name.as_str())
    }

    /// Creates the distinguished `HEAD` ref, initially unbound; fails with
    /// `AlreadyExists`, changing nothing, exactly when it already exists.
    pub fn create_head(&mut self) -> (r: Result<(), RepoError>)
        requires
            old(self).wf(),
        ensures
            final(self).wf(),
            r is Ok <==> !old(self)@.contains_key(head_key()),
            r is Ok ==> final(self)@ == old(self)@.insert(
                head_key(),
                RefInfo { ref_type: RefType::Head, commit_hash: None },
            ),
            r is Err ==> r == Err::<(), RepoError>(RepoError::AlreadyExists) && final(self)@ == old(
                self,
            )@,
    {
        let name = <String as StringExecFns>::from_str("HEAD");
        self.create_ref(RefType::Head, name, None)
    }

    /// Points `HEAD` at `hash`, creating it if it does not exist yet.
    pub fn set_head(&mut self, hash: &crate::Hash)
        requires
            old(self).wf(),
        ensures
            final(self).wf(),
            final(self)@ == old(self)@.insert(
                head_key(),
                RefInfo { ref_type: RefType::Head, commit_hash: Some(hash@) },
            ),
    {
        let name = <String as StringExecFns>::from_str("HEAD");
        let entry = RefEntry { ref_type: RefType::Head, commit_hash: Some(hash.clone()) };
        let ghost info = entry@;
        let present = self.map.contains_key(name.as_str());
        self.map.insert(name, entry);
        if !present {
            let name2 = <String as StringExecFns>::from_str("HEAD");
            self.names.push(name2);
            proof {
                assert(self@ =~= old(self)@.insert(head_key(), info));
                assert(self.key_seq() =~= old(self).key_seq().push(head_key()));
                lemma_listed_insert(old(self)@, old(self).key_seq(), head_key(), info);
            }
        } else {
            proof {
                assert(self@ =~= old(self)@.insert(head_key(), info));
                assert(self.key_seq() == old(self).key_seq());
                lemma_listed_update(old(self)@, old(self).key_seq(), head_key(), info);
            }
        }
    }

    /// Rebinds `HEAD` to `hash`; fails with `NotFound`, changing nothing,
    /// exactly when `HEAD` does not exist.
    pub fn update_head(&mut self, hash: &crate::Hash) -> (r: Result<(), RepoError>)
        requires
            old(self).wf(),
        ensures
            final(self).wf(),
            r is Ok <==> old(self)@.contains_key(head_key()),
            r is Ok ==> final(self)@ == old(self)@.insert(
                head_key(),
                RefInfo { ref_type: old(self)@[head_key()].ref_type, commit_hash: Some(hash@) },
            ),
            r is Err ==> r == Err::<(), RepoError>(RepoError::NotFound) && final(self)@ == old(
                self,
            )@,
    {
        let name = <String as StringExecFns>::from_str("HEAD");
        self.update_ref(&name, hash)
    }

    /// The commit `HEAD` points at, or nothing if `HEAD` is absent or
    /// unbound; never fails.
    pub fn get_head(&self) -> (r: Option<crate::Hash>)
        ensures
            (match r {
                Some(h) => head_of(self@) == Some(h@),
                None => head_of(self@) is None,
            }),
    {
        let name = <String as StringExecFns>::from_str("HEAD");
        match self.map.get(name.as_str()) {
            Some(e) => clone_opt_hash(&e.commit_hash),
            None => None,
        }
    }

    /// All bound ref names, in insertion order.
    pub fn ref_names(&self) -> (r: Vec<String>)
        ensures
            r@.map_values(|n: String| n@) == self.key_seq(),
    {
        let n = self.names.len();
        let mut r: Vec<String> = Vec::new();
        let mut i: usize = 0;
        while i < n
            invariant
                n == self.names.len(),
                i <= n,
                r@.len() == i,
                forall|j: int| 0 <= j < i ==> #[trigger] r@[j]@ == self.key_seq()[j],
            decreases n - i,
        {
            r.push(self.names[i].clone());
            i += 1;
        }
        proof {
            assert(r@.map_values(|x: String| x@) =~= self.key_seq());
        }
        r
    }

    /// An independent copy of the store, with the same bindings.
    pub fn duplicate(&self) -> (r: RefStore)
        requires
            self.wf(),
        ensures
            r.wf(),
            r@ == self@,
    {
        let mut r = RefStore::new();
        r.merge_missing(self);
        proof {
            assert(r@ =~= self@);
        }
        r
    }

    /// Copies into `self` every binding of `src` whose name is not yet
    /// bound; bindings already present are left untouched.
    pub fn merge_missing(&mut self, src: &RefStore)
        requires
            old(self).wf(),
            src.wf(),
        ensures
            final(self).wf(),
            final(self)@ == src@.union_prefer_right(old(self)@),
    {
        let n = src.names.len();
        let mut i: usize = 0;
        while i < n
            invariant
                self.wf(),
                src.wf(),
                n == src.names.len(),
                i <= n,
                forall|k: Seq<char>|
                    #[trigger] old(self)@.contains_key(k) ==> self@.contains_key(k) && self@[k]
                        == old(self)@[k],
                forall|k: Seq<char>|
                    #[trigger] self@.contains_key(k) ==> old(self)@.contains_key(k) || (
                    src@.contains_key(k) && self@[k] == src@[k] && src.key_seq().subrange(
                        0,
                        i as int,
                    ).contains(k)),
                forall|j: int| 0 <= j < i ==> self@.contains_key(#[trigger] src.key_seq()[j]),
            decreases n - i,
        {
            let name = &src.names[i];
            proof {
                assert(src@.contains_key(src.key_seq()[i as int]));
                assert(src.map@.contains_key(name@));
            }
            let ghost prev = self@;
            let ghost prev_ks = self.key_seq();
            let ghost ks = src.key_seq();
            if !self.map.contains_key(name.as_str()) {
                let e = src.map.get(name.as_str()).unwrap();
                let entry = RefEntry {
                    ref_type: e.ref_type,
                    commit_hash: clone_opt_hash(&e.commit_hash),
                };
                proof {
                    assert(entry@ =~= src@[name@]);
                }
                self.map.insert(name.clone(), entry);
                self.names.push(name.clone());
                proof {
                    assert(self@ =~= prev.insert(name@, src@[name@]));
                    assert(self.key_seq() =~= prev_ks.push(name@));
                    lemma_listed_insert(prev, prev_ks, name@, src@[name@]);
                }
            }
            proof {
                assert forall|k: Seq<char>| #[trigger] self@.contains_key(k) implies old(
                    self,
                )@.contains_key(k) || (src@.contains_key(k) && self@[k] == src@[k] && ks.subrange(
                    0,
                    i + 1,
                ).contains(k)) by {
                    if !old(self)@.contains_key(k) {
                        if prev.contains_key(k) {
                            let q = choose|q: int| 0 <= q < i && ks.subrange(0, i as int)[q] == k;
                            assert(ks.subrange(0, i + 1)[q] == k);
                        } else {
                            assert(k == ks[i as int]);
                            assert(ks.subrange(0, i + 1)[i as int] == k);
                        }
                    }
                }
            }
            i += 1;
        }
        proof {
            src.lemma_keys();
            let ks = src.key_seq();
            assert forall|k: Seq<char>| src@.contains_key(k) implies self@.contains_key(k) by {
                assert(ks.contains(k));
                let j = choose|j: int| 0 <= j < ks.len() && ks[j] == k;
                assert(self@.contains_key(ks[j]));
            }
            assert(self@ =~= src@.union_prefer_right(old(self)@));
        }
    }
}

/// Ref round trip: creating a ref bound to `h` makes reading it yield
/// `Some(h)`, and rebinding it to `h2` makes reading it yield `Some(h2)`,
/// stated over the map transitions that `create_ref`, `update_ref` and
/// `get_ref` promise.
pub proof fn lemma_ref_round_trip(
    m: Map<Seq<char>, RefInfo>,
    ref_type: RefType,
    name: Seq<char>,
    h: Seq<char>,
    h2: Seq<char>,
)
    requires
        !m.contains_key(name),
    ensures
        ({
            let m1 = m.insert(name, RefInfo { ref_type, commit_hash: Some(h) });
            let m2 = m1.insert(
                name,
                RefInfo { ref_type: m1[name].ref_type, commit_hash: Some(h2) },
            );
            &&& get_ref_spec(m1, name).commit_hash == Some(h)
            &&& get_ref_spec(m2, name).commit_hash == Some(h2)
            &&& get_ref_spec(m2, name).ref_type == ref_type
        }),
{
}

} // verus!
