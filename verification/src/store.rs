//! The key-value store that the commands work on.
use vstd::hash_map::StringHashMap;
use vstd::prelude::*;

verus! {

/// The texts of `keys`, in order.
pub open spec fn key_views(keys: Seq<&String>) -> Seq<Seq<char>> {
    Seq::new(keys.len(), |i: int| keys[i]@)
}

/// How many of `keys` are keys of `contents`.
pub open spec fn present_count(contents: Map<Seq<char>, Seq<char>>, keys: Set<Seq<char>>) -> nat {
    contents.dom().intersect(keys).len()
}

/// `n` as a 64-bit count, which stops at the largest one.
pub open spec fn as_count(n: nat) -> i64 {
    if n <= i64::MAX {
        n as i64
    } else {
        i64::MAX
    }
}

/// A mapping from keys to values, both text. Each key is there at most once.
pub trait Store {
    /// What the store holds.
    spec fn contents(&self) -> Map<Seq<char>, Seq<char>>;

    /// The value under `key`, if there is one.
    fn get(&self, key: &str) -> (res: Option<&String>)
        ensures
            match res {
                Some(value) => self.contents().contains_key(key@) && value@
                    == self.contents()[key@],
                None => !self.contents().contains_key(key@),
            },
    ;

    /// Puts `value` under `key`, in place of what was there.
    fn set(&mut self, key: &str, value: String)
        ensures
            final(self).contents() == old(self).contents().insert(key@, value@),
    ;

    /// Removes each of `keys` and counts those that were there. A key that
    /// is named twice counts once.
    fn del(&mut self, keys: &[&String]) -> (count: i64)
        ensures
            final(self).contents() == old(self).contents().remove_keys(key_views(keys@).to_set()),
            count == as_count(present_count(old(self).contents(), key_views(keys@).to_set())),
    ;
}

/// A store in memory, on a hash map.
pub struct HashMapStore {
    data: StringHashMap<String>,
}

impl HashMapStore {
    /// A store that holds nothing.
    pub fn new() -> (store: HashMapStore)
        ensures
            store.contents() == Map::<Seq<char>, Seq<char>>::empty(),
    {
        let store = HashMapStore { data: StringHashMap::new() };
        assert(store.contents() =~= Map::<Seq<char>, Seq<char>>::empty());
        store
    }
}

impl Store for HashMapStore {
    closed spec fn contents(&self) -> Map<Seq<char>, Seq<char>> {
        self.data@.map_values(|value: String| value@)
    }

    fn get(&self, key: &str) -> (res: Option<&String>) {
        self.data.get(key)
    }

    fn set(&mut self, key: &str, value: String) {
        self.data.insert(key.to_owned(), value);
        assert(final(self).contents() =~= old(self).contents().insert(key@, value@));
    }

    fn del(&mut self, keys: &[&String]) -> (count: i64) {
        broadcast use vstd::set::group_set_axioms;

        let ghost before: Map<Seq<char>, Seq<char>> = self.contents();
        let ghost all: Seq<Seq<char>> = key_views(keys@);
        let mut count: i64 = 0;
        let mut i: usize = 0;
        proof {
            assert(all.take(0).to_set() =~= Set::<Seq<char>>::empty());
            assert(before.dom().intersect(all.take(0).to_set()) =~= Set::<Seq<char>>::empty());
            assert(self.contents() =~= before.remove_keys(all.take(0).to_set()));
        }
        while i < keys.len()
            invariant
                i <= keys.len(),
                before == old(self).contents(),
                all == key_views(keys@),
                self.contents() == before.remove_keys(all.take(i as int).to_set()),
                count == as_count(present_count(before, all.take(i as int).to_set())),
            decreases keys.len() - i,
        {
            let key: &String = keys[i];
            let ghost seen: Set<Seq<char>> = all.take(i as int).to_set();
            let ghost more: Set<Seq<char>> = all.take(i + 1).to_set();
            let ghost here: Map<Seq<char>, Seq<char>> = self.contents();
            let ghost shorter: Seq<Seq<char>> = all.take(i as int);
            let ghost longer: Seq<Seq<char>> = all.take(i + 1);
            proof {
                vstd::seq_lib::seq_to_set_is_finite(shorter);
                assert(longer =~= shorter.push(key@));
                assert forall|k: Seq<char>| more.contains(k) <==> seen.insert(key@).contains(
                    k,
                ) by {
                    if longer.contains(k) {
                        let j: int = choose|j: int| 0 <= j < longer.len() && longer[j] == k;
                        if j < i {
                            assert(shorter[j] == k);
                        }
                    }
                    if shorter.contains(k) {
                        let j: int = choose|j: int| 0 <= j < shorter.len() && shorter[j] == k;
                        assert(longer[j] == k);
                    }
                    if k == key@ {
                        assert(longer[i as int] == k);
                    }
                }
                assert(more =~= seen.insert(key@));
                assert(here.contains_key(key@) <==> self.data@.contains_key(key@));
                assert(here.contains_key(key@) <==> before.dom().contains(key@) && !seen.contains(
                    key@,
                ));
                assert(before.dom().intersect(seen).finite());
            }
            if self.data.contains_key(key.as_str()) {
                self.data.remove(key.as_str());
                if count < i64::MAX {
                    count = count + 1;
                }
                proof {
                    assert(self.contents() =~= here.remove(key@));
                    assert(self.contents() =~= before.remove_keys(more));
                    assert(before.dom().intersect(more) =~= before.dom().intersect(seen).insert(
                        key@,
                    ));
                }
            } else {
                proof {
                    assert(self.contents() =~= before.remove_keys(more));
                    assert(before.dom().intersect(more) =~= before.dom().intersect(seen));
                }
            }
            i += 1;
        }
        assert(all.take(keys.len() as int) =~= all);
        count
    }
}

} // verus!
