//! Append-only multi-value keyed blob store used to persist counterexamples
//! across runs. The engine depends only on this interface; a no-op store and
//! an in-memory store live here, and a filesystem store can be built on top
//! of the same trait.

use vstd::prelude::*;

verus! {

/// Keys are opaque strings chosen by the host.
pub type Key = str;

/// The store the engine keeps failing examples in. `save` may be called
/// repeatedly with the same key; `delete` removes exactly one matching blob
/// and missing blobs are not an error; `fetch` returns all blobs currently
/// stored under a key, in no promised order.
pub trait Database {
    fn save(&mut self, key: &Key, value: &[u8]);

    fn delete(&mut self, key: &Key, value: &[u8]);

    fn fetch(&mut self, key: &Key) -> Vec<Vec<u8>>;
}

/// A store that remembers nothing.
#[derive(Debug)]
pub struct NoDatabase;

impl Database for NoDatabase {
    fn save(&mut self, _key: &Key, _value: &[u8]) {
    }

    fn delete(&mut self, _key: &Key, _value: &[u8]) {
    }

    fn fetch(&mut self, _key: &Key) -> (r: Vec<Vec<u8>>)
        ensures
            r@.len() == 0,
    {
        Vec::new()
    }
}

/// The blobs stored under one key, in storage order.
pub open spec fn blobs_for(s: Seq<(Seq<char>, Seq<u8>)>, k: Seq<char>) -> Seq<Seq<u8>>
    decreases s.len(),
{
    if s.len() == 0 {
        Seq::empty()
    } else {
        let rest = blobs_for(s.drop_last(), k);
        if s.last().0 == k {
            rest.push(s.last().1)
        } else {
            rest
        }
    }
}

/// The store after deleting one blob `v` under key `k` from contents `s`:
/// unchanged when no entry matches, else with one matching entry removed.
pub open spec fn delete_post(s: Seq<(Seq<char>, Seq<u8>)>, t: Seq<(Seq<char>, Seq<u8>)>, k: Seq<char>, v: Seq<u8>) -> bool {
    ||| (t == s && forall|i: int| 0 <= i < s.len() ==> !((#[trigger] s[i]).0 == k && s[i].1 == v))
    ||| (exists|i: int|
        0 <= i < s.len() && (#[trigger] s[i]).0 == k && s[i].1 == v && t == s.subrange(0, i)
            + s.skip(i + 1))
}

/// The byte contents of a list of owned blobs.
pub open spec fn blob_views(r: Seq<Vec<u8>>) -> Seq<Seq<u8>> {
    r.map_values(|v: Vec<u8>| v@)
}

/// An in-memory store: every saved blob is kept with its key, in order.
pub struct MemoryDatabase {
    entries: Vec<(String, Vec<u8>)>,
}

impl MemoryDatabase {
    /// The stored (key, blob) pairs, in storage order.
    pub closed spec fn view_entries(self) -> Seq<(Seq<char>, Seq<u8>)> {
        self.entries@.map_values(|e: (String, Vec<u8>)| (e.0@, e.1@))
    }

    /// An empty store.
    pub fn new() -> (db: MemoryDatabase)
        ensures
            db.view_entries().len() == 0,
    {
        let db = MemoryDatabase { entries: Vec::new() };
        proof {
            assert(db.view_entries() =~= Seq::<(Seq<char>, Seq<u8>)>::empty());
        }
        db
    }
}

/// Copies a byte slice into an owned blob.
fn bytes_of_slice(b: &[u8]) -> (r: Vec<u8>)
    ensures
        r@ == b@,
{
    let mut out: Vec<u8> = Vec::new();
    let mut i: usize = 0;
    while i < b.len()
        invariant
            0 <= i <= b@.len(),
            out@ == b@.take(i as int),
        decreases b@.len() - i,
    {
        out.push(b[i]);
        proof {
            assert(out@ =~= b@.take(i + 1));
        }
        i = i + 1;
    }
    proof {
        assert(b@.take(b@.len() as int) =~= b@);
    }
    out
}

/// Compares an owned blob with a byte slice.
fn bytes_match(a: &Vec<u8>, b: &[u8]) -> (r: bool)
    ensures
        r == (a@ == b@),
{
    if a.len() != b.len() {
        proof {
            assert(a@.len() != b@.len());
        }
        return false;
    }
    let mut i: usize = 0;
    while i < a.len()
        invariant
            a@.len() == b@.len(),
            0 <= i <= a@.len(),
            forall|k: int| 0 <= k < i ==> a@[k] == b@[k],
        decreases a@.len() - i,
    {
        if a[i] != b[i] {
            return false;
        }
        i = i + 1;
    }
    proof {
        assert(a@ =~= b@);
    }
    true
}

impl Database for MemoryDatabase {
    /// Appends the blob under the key.
    fn save(&mut self, key: &Key, value: &[u8])
        ensures
            final(self).view_entries() == old(self).view_entries().push((key@, value@)),
    {
        let owned_key: String = key.to_owned();
        let blob = bytes_of_slice(value);
        self.entries.push((owned_key, blob));
        proof {
            assert(self.view_entries() =~= old(self).view_entries().push((key@, value@)));
        }
    }

    /// Removes one stored blob equal to the given one under the key, if any
    /// is present; a missing blob is not an error.
    fn delete(&mut self, key: &Key, value: &[u8])
        ensures
            delete_post(old(self).view_entries(), final(self).view_entries(), key@, value@),
    {
        let ghost s = self.view_entries();
        let owned_key: String = key.to_owned();
        let mut i: usize = 0;
        while i < self.entries.len()
            invariant
                s == self.view_entries(),
                s == old(self).view_entries(),
                owned_key@ == key@,
                0 <= i <= self.entries@.len(),
                s.len() == self.entries@.len(),
                forall|k: int| 0 <= k < s.len() ==> #[trigger] s[k] == (self.entries@[k].0@, self.entries@[k].1@),
                forall|k: int| 0 <= k < i ==> !((#[trigger] s[k]).0 == key@ && s[k].1 == value@),
            decreases self.entries@.len() - i,
        {
            let matches_key = self.entries[i].0 == owned_key;
            let matches_value = bytes_match(&self.entries[i].1, value);
            if matches_key && matches_value {
                proof {
                    assert(s[i as int].0 == key@ && s[i as int].1 == value@);
                }
                self.entries.remove(i);
                proof {
                    assert(self.view_entries() =~= s.subrange(0, i as int) + s.skip(i + 1));
                    assert(s == old(self).view_entries());
                    assert(delete_post(old(self).view_entries(), self.view_entries(), key@, value@)) by {
                        let j = i as int;
                        assert(0 <= j < s.len() && (#[trigger] s[j]).0 == key@
                            && s[j].1 == value@ && self.view_entries() == s.subrange(0, j)
                            + s.skip(j + 1));
                    }
                }
                return ;
            }
            i = i + 1;
        }
    }

    /// Returns every blob stored under the key, in storage order.
    fn fetch(&mut self, key: &Key) -> (r: Vec<Vec<u8>>)
        ensures
            final(self).view_entries() == old(self).view_entries(),
            blob_views(r@) == blobs_for(old(self).view_entries(), key@),
    {
        let ghost s = self.view_entries();
        let owned_key: String = key.to_owned();
        let mut out: Vec<Vec<u8>> = Vec::new();
        let mut i: usize = 0;
        proof {
            assert(s.take(0) =~= Seq::<(Seq<char>, Seq<u8>)>::empty());
            assert(blob_views(out@) =~= blobs_for(s.take(0), key@));
        }
        while i < self.entries.len()
            invariant
                s == self.view_entries(),
                s == old(self).view_entries(),
                owned_key@ == key@,
                0 <= i <= self.entries@.len(),
                s.len() == self.entries@.len(),
                forall|k: int| 0 <= k < s.len() ==> #[trigger] s[k] == (self.entries@[k].0@, self.entries@[k].1@),
                blob_views(out@) == blobs_for(s.take(i as int), key@),
            decreases self.entries@.len() - i,
        {
            proof {
                assert(s.take(i + 1).drop_last() =~= s.take(i as int));
                assert(s.take(i + 1).last() == s[i as int]);
            }
            if self.entries[i].0 == owned_key {
                let blob = bytes_of_slice(self.entries[i].1.as_slice());
                out.push(blob);
                proof {
                    assert(blob_views(out@) =~= blobs_for(s.take(i + 1), key@));
                }
            } else {
                proof {
                    assert(blob_views(out@) =~= blobs_for(s.take(i + 1), key@));
                }
            }
            i = i + 1;
        }
        proof {
            assert(s.take(s.len() as int) =~= s);
        }
        out
    }
}

} // verus!
