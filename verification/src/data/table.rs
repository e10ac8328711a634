//! A string-keyed table that remembers the order of its keys.

use vstd::prelude::*;
use vstd::hash_map::StringHashMap;
use crate::text::views;

verus! {

/// A map from strings to values that also keeps its keys in the order in
/// which they were first inserted, so that the entries can be walked.
#[verifier::reject_recursive_types(V)]
pub struct StrTable<V> {
    map: StringHashMap<V>,
    keys: Vec<String>,
}

impl<V> View for StrTable<V> {
    type V = Map<Seq<char>, V>;

    closed spec fn view(&self) -> Map<Seq<char>, V> {
        self.map@
    }
}

impl<V> StrTable<V> {
    /// The keys, in the order in which they were first inserted.
    pub closed spec fn key_order(&self) -> Seq<Seq<char>> {
        views(self.keys@)
    }

    #[verifier::type_invariant]
    closed spec fn keys_match(&self) -> bool {
        &&& views(self.keys@).no_duplicates()
        &&& forall|k: Seq<char>| #[trigger] self.map@.contains_key(k) <==> views(self.keys@).contains(k)
    }

    /// An empty table.
    pub fn new() -> (t: Self)
        ensures
            t@ == Map::<Seq<char>, V>::empty(),
            t.key_order() == Seq::<Seq<char>>::empty(),
    {
        let t = StrTable { map: StringHashMap::new(), keys: Vec::new() };
        assert(views(t.keys@) =~= Seq::<Seq<char>>::empty());
        t
    }

    /// Binds `k` to `v`, replacing the value that `k` had.
    pub fn insert(&mut self, k: String, v: V)
        ensures
            final(self)@ == old(self)@.insert(k@, v),
            old(self)@.contains_key(k@) ==> final(self).key_order() == old(self).key_order(),
            !old(self)@.contains_key(k@) ==> final(self).key_order() == old(self).key_order().push(k@),
    {
        proof {
            use_type_invariant(&*self);
        }
        let mut taken = StrTable::new();
        std::mem::swap(&mut taken, self);
        let StrTable { mut map, mut keys } = taken;
        let ghost old_keys = views(keys@);
        if !map.contains_key(k.as_str()) {
            keys.push(k.clone());
            assert(views(keys@) =~= old_keys.push(k@));
            proof {
                assert forall|i: int, j: int| 0 <= i < j < views(keys@).len() implies views(keys@)[i] != views(keys@)[j] by {
                    if j == old_keys.len() {
                        assert(old_keys.contains(old_keys[i]));
                    }
                }
                assert forall|x: Seq<char>| views(keys@).contains(x) <==> old_keys.contains(x) || x == k@ by {
                    if views(keys@).contains(x) {
                        let i = choose|i: int| 0 <= i < views(keys@).len() && views(keys@)[i] == x;
                        if i < old_keys.len() {
                            assert(old_keys[i] == x);
                        }
                    }
                    if old_keys.contains(x) {
                        let i = choose|i: int| 0 <= i < old_keys.len() && old_keys[i] == x;
                        assert(views(keys@)[i] == x);
                    }
                    if x == k@ {
                        assert(views(keys@)[old_keys.len() as int] == x);
                    }
                }
            }
        }
        map.insert(k, v);
        *self = StrTable { map, keys };
    }

    /// The value bound to `k`, if any.
    pub fn get(&self, k: &str) -> (r: Option<&V>)
        ensures
            match r {
                Some(v) => self@.contains_key(k@) && *v == self@[k@],
                None => !self@.contains_key(k@),
            },
    {
        self.map.get(k)
    }

    /// Whether `k` is bound.
    pub fn contains_key(&self, k: &str) -> (r: bool)
        ensures
            r == self@.contains_key(k@),
    {
        self.map.contains_key(k)
    }

    /// The keys, each once, in the order in which they were first inserted.
    pub fn keys(&self) -> (r: &Vec<String>)
        ensures
            views(r@) == self.key_order(),
            self.key_order().no_duplicates(),
            forall|k: Seq<char>| #[trigger] self@.contains_key(k) <==> self.key_order().contains(k),
    {
        proof {
            use_type_invariant(self);
        }
        &self.keys
    }

    /// The number of entries.
    pub fn len(&self) -> (n: usize)
        ensures
            n == self.key_order().len(),
    {
        self.keys.len()
    }
}

} // verus!
