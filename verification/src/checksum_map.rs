//! The list of expected checksums of an archive: a finite map from archive
//! paths to checksums, which also remembers an order in which to walk it.
use vstd::prelude::*;
use vstd::hash_map::StringHashMap;

verus! {

/// The views of a sequence of strings.
pub open spec fn string_views(s: Seq<String>) -> Seq<Seq<char>> {
    s.map_values(|x: String| x@)
}

/// `keys` lists the domain of `m`, each key exactly once.
pub open spec fn lists_keys_of(keys: Seq<Seq<char>>, m: Map<Seq<char>, Seq<char>>) -> bool {
    &&& keys.no_duplicates()
    &&& forall|i: int| 0 <= i < keys.len() ==> m.contains_key(#[trigger] keys[i])
    &&& forall|k: Seq<char>| m.contains_key(k) ==> keys.contains(k)
}

/// The map after recording `entries` in order onto `m`.
pub open spec fn entries_map(m: Map<Seq<char>, Seq<char>>, entries: Seq<(String, String)>) -> Map<Seq<char>, Seq<char>>
    decreases entries.len(),
{
    if entries.len() == 0 {
        m
    } else {
        entries_map(m, entries.drop_last()).insert(entries.last().0@, entries.last().1@)
    }
}

/// A map from archive paths (such as `./dir/file.txt`) to checksums.
pub struct ChecksumMap {
    map: StringHashMap<String>,
    keys: Vec<String>,
}

impl View for ChecksumMap {
    type V = Map<Seq<char>, Seq<char>>;

    closed spec fn view(&self) -> Map<Seq<char>, Seq<char>> {
        self.map@.map_values(|v: String| v@)
    }
}

impl ChecksumMap {
    #[verifier::type_invariant]
    closed spec fn inv(self) -> bool {
        &&& string_views(self.keys@).no_duplicates()
        &&& forall|i: int| 0 <= i < self.keys@.len() ==> self.map@.contains_key(#[trigger] self.keys@[i]@)
        &&& forall|k: Seq<char>| self.map@.contains_key(k) ==> string_views(self.keys@).contains(k)
    }

    /// The keys in the order in which `keys()` hands them out.
    pub closed spec fn key_order(&self) -> Seq<Seq<char>> {
        string_views(self.keys@)
    }

    /// What the type invariant gives about the key order.
    fn key_order_facts(&self)
        ensures
            lists_keys_of(self.key_order(), self@),
            self.key_order().len() == self@.len(),
            self@.dom().finite(),
    {
        proof {
            use_type_invariant(self);
            let ks = self.key_order();
            assert forall|i: int| 0 <= i < ks.len() implies self@.contains_key(#[trigger] ks[i]) by {
                assert(self.map@.contains_key(self.keys@[i]@));
            }
            assert(ks.to_set() =~= self@.dom());
            ks.unique_seq_to_set();
        }
    }

    /// An empty map.
    pub fn new() -> (r: Self)
        ensures
            r@ == Map::<Seq<char>, Seq<char>>::empty(),
            r.key_order() == Seq::<Seq<char>>::empty(),
    {
        let r = ChecksumMap { map: StringHashMap::new(), keys: Vec::new() };
        assert(r@ =~= Map::<Seq<char>, Seq<char>>::empty());
        assert(r.key_order() =~= Seq::<Seq<char>>::empty());
        r
    }

    /// Number of entries.
    pub fn len(&self) -> (r: usize)
        ensures
            r == self@.len(),
    {
        self.key_order_facts();
        self.keys.len()
    }

    /// Whether `key` has an entry.
    pub fn contains_key(&self, key: &str) -> (r: bool)
        ensures
            r == self@.contains_key(key@),
    {
        self.map.contains_key(key)
    }

    /// The checksum recorded for `key`, if any.
    pub fn get(&self, key: &str) -> (r: Option<&String>)
        ensures
            match r {
                Some(v) => self@.contains_key(key@) && v@ == self@[key@],
                None => !self@.contains_key(key@),
            },
    {
        self.map.get(key)
    }

    /// The keys, each once, in the map's walking order.
    pub fn keys(&self) -> (r: &Vec<String>)
        ensures
            string_views(r@) == self.key_order(),
            lists_keys_of(self.key_order(), self@),
    {
        self.key_order_facts();
        &self.keys
    }

    /// Records `value` as the checksum of `key`, replacing any earlier one.
    pub fn insert(&mut self, key: String, value: String)
        ensures
            final(self)@ == old(self)@.insert(key@, value@),
    {
        proof {
            use_type_invariant(&*self);
        }
        let mut taken = ChecksumMap::new();
        std::mem::swap(self, &mut taken);
        proof {
            use_type_invariant(&taken);
        }
        let ChecksumMap { mut map, mut keys } = taken;
        let ghost old_keys = keys@;
        if !map.contains_key(key.as_str()) {
            keys.push(key.clone());
            proof {
                assert(string_views(keys@) =~= string_views(old(self).keys@).push(key@));
            }
        }
        map.insert(key, value);
        proof {
            let ks = string_views(keys@);
            assert forall|i: int| 0 <= i < keys@.len() implies map@.contains_key(#[trigger] keys@[i]@) by {
                if i < old_keys.len() {
                    assert(old_keys[i] == keys@[i]);
                }
            }
            assert forall|k: Seq<char>| map@.contains_key(k) implies ks.contains(k) by {
                if k != key@ {
                    let j = choose|j: int| 0 <= j < old_keys.len() && string_views(old_keys)[j] == k;
                    assert(ks[j] == k);
                } else {
                    if string_views(old_keys).contains(k) {
                        let j = choose|j: int| 0 <= j < old_keys.len() && string_views(old_keys)[j] == k;
                        assert(ks[j] == k);
                    } else {
                        assert(ks[ks.len() - 1] == k);
                    }
                }
            }
        }
        *self = ChecksumMap { map, keys };
        assert(self@ =~= old(self)@.insert(key@, value@));
    }

    /// Removes the entry of `key`, if there is one.
    pub fn remove(&mut self, key: &String)
        ensures
            final(self)@ == old(self)@.remove(key@),
    {
        let mut taken = ChecksumMap::new();
        std::mem::swap(self, &mut taken);
        proof {
            use_type_invariant(&taken);
        }
        let ChecksumMap { mut map, mut keys } = taken;
        let ghost old_keys = keys@;
        let ghost old_views = string_views(old_keys);
        map.remove(key.as_str());
        let mut i: usize = 0;
        let mut found = false;
        while i < keys.len()
            invariant_except_break
                i <= keys.len(),
                keys@ == old_keys,
                old_views == string_views(old_keys),
                !found,
                forall|j: int| 0 <= j < i ==> old_views[j] != key@,
            ensures
                i <= keys.len(),
                keys@ == old_keys,
                found ==> i < keys.len() && old_views[i as int] == key@,
                !found ==> forall|j: int| 0 <= j < keys.len() ==> old_views[j] != key@,
            decreases keys.len() - i,
        {
            assert(old_views[i as int] == keys@[i as int]@);
            if keys[i] == *key {
                found = true;
                break;
            }
            i = i + 1;
        }
        if found {
            keys.remove(i);
            proof {
                assert(string_views(keys@) =~= old_views.remove(i as int));
            }
        }
        proof {
            let ks = string_views(keys@);
            if found {
                assert(ks =~= old_views.remove(i as int));
                assert forall|a: int, b: int| 0 <= a < b < ks.len() implies ks[a] != ks[b] by {
                    let a2 = if a < i { a } else { a + 1 };
                    let b2 = if b < i { b } else { b + 1 };
                    assert(ks[a] == old_views[a2]);
                    assert(ks[b] == old_views[b2]);
                }
                assert forall|j: int| 0 <= j < keys@.len() implies map@.contains_key(#[trigger] keys@[j]@) by {
                    let j2 = if j < i { j } else { j + 1 };
                    assert(ks[j] == old_views[j2]);
                    assert(old_views[j2] != key@);
                    assert(old_keys[j2]@ == old_views[j2]);
                }
                assert forall|k: Seq<char>| map@.contains_key(k) implies ks.contains(k) by {
                    let j = choose|j: int| 0 <= j < old_keys.len() && old_views[j] == k;
                    assert(j != i);
                    if j < i {
                        assert(ks[j] == k);
                    } else {
                        assert(ks[j - 1] == k);
                    }
                }
            } else {
                assert(ks == old_views);
                assert forall|j: int| 0 <= j < keys@.len() implies map@.contains_key(#[trigger] keys@[j]@) by {
                    assert(old_views[j] != key@);
                    assert(old_keys[j]@ == old_views[j]);
                }
            }
        }
        *self = ChecksumMap { map, keys };
        assert(self@ =~= old(self)@.remove(key@));
    }

    /// The map that records `entries` in order, a later entry for a path
    /// replacing an earlier one.
    pub fn from_entries(entries: Vec<(String, String)>) -> (r: Self)
        ensures
            r@ == entries_map(Map::empty(), entries@),
    {
        let mut r = ChecksumMap::new();
        let mut rest = entries;
        let ghost all = rest@;
        let mut i: usize = 0;
        let n = rest.len();
        while i < n
            invariant
                n == all.len(),
                i <= n,
                rest@.len() == n,
                forall|j: int| i <= j < n ==> rest@[j] == all[j],
                r@ == entries_map(Map::empty(), all.take(i as int)),
            decreases n - i,
        {
            let mut entry = (String::new(), String::new());
            std::mem::swap(&mut entry, &mut rest[i]);
            proof {
                assert(entry == all[i as int]);
                assert(all.take(i + 1).drop_last() =~= all.take(i as int));
                assert(all.take(i + 1).last() == all[i as int]);
            }
            let (k, v) = entry;
            r.insert(k, v);
            i = i + 1;
        }
        proof {
            assert(all.take(n as int) =~= all);
        }
        r
    }
}

/// The paths of `entries`, in order.
pub open spec fn entry_keys(entries: Seq<(String, String)>) -> Seq<Seq<char>> {
    entries.map_values(|p: (String, String)| p.0@)
}

/// The entries as pairs of views.
pub open spec fn entry_views(entries: Seq<(String, String)>) -> Seq<(Seq<char>, Seq<char>)> {
    entries.map_values(|p: (String, String)| (p.0@, p.1@))
}

/// With each path given once, the map built from the entries records
/// exactly their paths, each with its own checksum.
pub proof fn lemma_entries_map_distinct(entries: Seq<(String, String)>)
    requires
        entry_keys(entries).no_duplicates(),
    ensures
        forall|k: Seq<char>| #[trigger] entries_map(Map::empty(), entries).contains_key(k) <==> entry_keys(entries).contains(k),
        forall|i: int| 0 <= i < entries.len() ==> #[trigger] entries_map(Map::empty(), entries)[entries[i].0@] == entries[i].1@,
    decreases entries.len(),
{
    if entries.len() > 0 {
        let init = entries.drop_last();
        let n = entries.len() - 1;
        assert(entry_keys(init) =~= entry_keys(entries).drop_last());
        lemma_entries_map_distinct(init);
        let m = entries_map(Map::empty(), entries);
        let mi = entries_map(Map::empty(), init);
        assert forall|k: Seq<char>| m.contains_key(k) <==> entry_keys(entries).contains(k) by {
            if mi.contains_key(k) {
                let j = choose|j: int| 0 <= j < init.len() && entry_keys(init)[j] == k;
                assert(entry_keys(entries)[j] == k);
            }
            if k == entries[n].0@ {
                assert(entry_keys(entries)[n] == k);
            }
            if entry_keys(entries).contains(k) {
                let j = choose|j: int| 0 <= j < entries.len() && entry_keys(entries)[j] == k;
                if j < n {
                    assert(entry_keys(init)[j] == k);
                }
            }
        }
        assert forall|i: int| 0 <= i < entries.len() implies #[trigger] m[entries[i].0@] == entries[i].1@ by {
            if i < n {
                assert(entry_keys(entries)[i] != entry_keys(entries)[n]);
                assert(init[i] == entries[i]);
            }
        }
    }
}

/// The map built from entries with distinct paths does not depend on their
/// order: two lists holding the same entries, each path once, give the
/// same map. So the record built from a parallel walk, whatever order the
/// workers finish in, is always the same.
pub proof fn lemma_entries_map_order_free(a: Seq<(String, String)>, b: Seq<(String, String)>)
    requires
        entry_keys(a).no_duplicates(),
        entry_keys(b).no_duplicates(),
        forall|x: (Seq<char>, Seq<char>)| entry_views(a).contains(x) <==> entry_views(b).contains(x),
    ensures
        entries_map(Map::empty(), a) == entries_map(Map::empty(), b),
{
    lemma_entries_map_distinct(a);
    lemma_entries_map_distinct(b);
    let ma = entries_map(Map::empty(), a);
    let mb = entries_map(Map::empty(), b);
    assert forall|k: Seq<char>| #[trigger] ma.contains_key(k) implies mb.contains_key(k) && mb[k] == ma[k] by {
        let i = choose|i: int| 0 <= i < a.len() && entry_keys(a)[i] == k;
        assert(entry_views(a)[i] == (k, a[i].1@));
        assert(entry_views(b).contains((k, a[i].1@)));
        let j = choose|j: int| 0 <= j < b.len() && entry_views(b)[j] == (k, a[i].1@);
        assert(entry_keys(b)[j] == k);
        assert(mb[b[j].0@] == b[j].1@);
        assert(ma[a[i].0@] == a[i].1@);
    }
    assert forall|k: Seq<char>| #[trigger] mb.contains_key(k) implies ma.contains_key(k) by {
        let j = choose|j: int| 0 <= j < b.len() && entry_keys(b)[j] == k;
        assert(entry_views(b)[j] == (k, b[j].1@));
        assert(entry_views(a).contains((k, b[j].1@)));
        let i = choose|i: int| 0 <= i < a.len() && entry_views(a)[i] == (k, b[j].1@);
        assert(entry_keys(a)[i] == k);
    }
    assert forall|k: Seq<char>| #[trigger] ma.dom().contains(k) <==> mb.dom().contains(k) by {
        if ma.contains_key(k) {
            assert(mb.contains_key(k));
        }
        if mb.contains_key(k) {
            assert(ma.contains_key(k));
        }
    }
    assert(ma =~= mb);
}

} // verus!
