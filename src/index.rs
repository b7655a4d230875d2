//! The in-memory index from keys to the place of their live record.
use vstd::hash_map::StringHashMap;
use vstd::prelude::*;

verus! {

/// Where the live record of a key lies: its segment, its first byte and its
/// length in bytes.
#[derive(Clone, Copy, Debug, PartialEq, Eq, Structural)]
pub struct IndexEntry {
    pub file_id: u64,
    pub value_pos: u64,
    pub value_sz: u64,
}

/// The in-memory index: a hash map from key to [`IndexEntry`], together with
/// a dense list of the live keys so that compaction can walk them.
pub struct Index {
    slots: StringHashMap<(IndexEntry, usize)>,
    keys: Vec<String>,
}

impl View for Index {
    type V = Map<Seq<char>, IndexEntry>;

    closed spec fn view(&self) -> Map<Seq<char>, IndexEntry> {
        self.slots@.map_values(|p: (IndexEntry, usize)| p.0)
    }
}

impl Index {
    /// The live keys in the order in which compaction visits them.
    pub closed spec fn order(&self) -> Seq<Seq<char>> {
        self.keys@.map_values(|k: String| k@)
    }

    /// Every key of the map has its place in the list, and every place of
    /// the list holds a key of the map that points back to it.
    pub closed spec fn wf(&self) -> bool {
        &&& forall|k: Seq<char>| #[trigger]
            self.slots@.contains_key(k) ==> {
                &&& self.slots@[k].1 < self.keys@.len()
                &&& self.keys@[self.slots@[k].1 as int]@ == k
            }
        &&& forall|i: int|
            0 <= i < self.keys@.len() ==> {
                &&& #[trigger] self.slots@.contains_key(self.keys@[i]@)
                &&& self.slots@[self.keys@[i]@].1 == i
            }
    }

    /// The visiting order lists each key of the index exactly once.
    pub proof fn lemma_order(&self)
        requires
            self.wf(),
        ensures
            self.order().no_duplicates(),
            forall|i: int| 0 <= i < self.order().len() ==> self@.contains_key(#[trigger] self.order()[i]),
            forall|k: Seq<char>| #[trigger] self@.contains_key(k) ==> self.order().contains(k),
            self@.dom().finite(),
            self@.dom().len() == self.order().len(),
    {
        let ord = self.order();
        assert forall|i: int, j: int| 0 <= i < ord.len() && 0 <= j < ord.len() && i != j implies ord[i] != ord[j] by {
            assert(self.slots@.contains_key(self.keys@[i]@));
            assert(self.slots@.contains_key(self.keys@[j]@));
        }
        assert forall|k: Seq<char>| #[trigger] self@.contains_key(k) implies ord.contains(k) by {
            assert(self.slots@.contains_key(k));
            let s = self.slots@[k].1 as int;
            assert(ord[s] == k);
        }
        assert forall|i: int| 0 <= i < ord.len() implies self@.contains_key(#[trigger] ord[i]) by {
            assert(self.slots@.contains_key(self.keys@[i]@));
        }
        assert(self@.dom() =~= ord.to_set());
        ord.unique_seq_to_set();
    }

    /// An empty index.
    pub fn new() -> (r: Index)
        ensures
            r.wf(),
            r@ == Map::<Seq<char>, IndexEntry>::empty(),
            r.order() == Seq::<Seq<char>>::empty(),
    {
        let r = Index { slots: StringHashMap::new(), keys: Vec::new() };
        assert(r@ =~= Map::<Seq<char>, IndexEntry>::empty());
        assert(r.order() =~= Seq::<Seq<char>>::empty());
        r
    }

    /// The number of live keys.
    pub fn len(&self) -> (r: usize)
        requires
            self.wf(),
        ensures
            r == self.order().len(),
            r == self@.dom().len(),
    {
        proof {
            self.lemma_order();
        }
        self.keys.len()
    }

    /// The key at `i` in the visiting order.
    pub fn key_at(&self, i: usize) -> (r: &String)
        requires
            i < self.order().len(),
        ensures
            r@ == self.order()[i as int],
    {
        &self.keys[i]
    }

    /// The entry of `key`, if it is bound.
    pub fn get(&self, key: &str) -> (r: Option<IndexEntry>)
        ensures
            match r {
                Some(e) => self@.contains_key(key@) && self@[key@] == e,
                None => !self@.contains_key(key@),
            },
    {
        match self.slots.get(key) {
            Some(p) => Some(p.0),
            None => None,
        }
    }

    /// Binds `key` to `e` and hands back the entry that it replaces. A new key
    /// goes to the end of the visiting order; a bound key keeps its place.
    pub fn insert(&mut self, key: String, e: IndexEntry) -> (r: Option<IndexEntry>)
        requires
            old(self).wf(),
        ensures
            final(self).wf(),
            final(self)@ == old(self)@.insert(key@, e),
            r == (if old(self)@.contains_key(key@) { Some(old(self)@[key@]) } else { None }),
            old(self)@.contains_key(key@) ==> final(self).order() == old(self).order(),
            !old(self)@.contains_key(key@) ==> final(self).order() == old(self).order().push(key@),
    {
        match self.slots.get(key.as_str()) {
            Some(p) => {
                let prev = p.0;
                let slot = p.1;
                self.slots.insert(key, (e, slot));
                assert(self@ =~= old(self)@.insert(key@, e));
                Some(prev)
            },
            None => {
                let slot = self.keys.len();
                let k2 = key.clone();
                self.keys.push(k2);
                self.slots.insert(key, (e, slot));
                assert(self@ =~= old(self)@.insert(key@, e));
                assert(self.order() =~= old(self).order().push(key@));
                assert forall|i: int| 0 <= i < self.keys@.len() implies {
                    &&& #[trigger] self.slots@.contains_key(self.keys@[i]@)
                    &&& self.slots@[self.keys@[i]@].1 == i
                } by {
                    if i < slot {
                        assert(old(self).slots@.contains_key(old(self).keys@[i]@));
                    }
                }
                None
            },
        }
    }

    /// Unbinds `key` and hands back its entry. The last key of the visiting
    /// order takes the freed place.
    pub fn remove(&mut self, key: &str) -> (r: Option<IndexEntry>)
        requires
            old(self).wf(),
        ensures
            final(self).wf(),
            final(self)@ == old(self)@.remove(key@),
            r == (if old(self)@.contains_key(key@) { Some(old(self)@[key@]) } else { None }),
    {
        match self.slots.get(key) {
            None => {
                assert(self@ =~= old(self)@.remove(key@));
                None
            },
            Some(p) => {
                let prev = p.0;
                let slot = p.1;
                let ghost last = (old(self).keys@.len() - 1) as int;
                let moved = self.keys.pop().unwrap();
                if slot < self.keys.len() {
                    let moved_entry = match self.slots.get(moved.as_str()) {
                        Some(q) => q.0,
                        None => prev,
                    };
                    assert(old(self).slots@.contains_key(old(self).keys@[last]@));
                    let moved_key = moved.clone();
                    self.keys.set(slot, moved);
                    self.slots.insert(moved_key, (moved_entry, slot));
                }
                self.slots.remove(key);
                assert(self@ =~= old(self)@.remove(key@));
                assert forall|k: Seq<char>| #[trigger] self.slots@.contains_key(k) implies {
                    &&& self.slots@[k].1 < self.keys@.len()
                    &&& self.keys@[self.slots@[k].1 as int]@ == k
                } by {
                    assert(old(self).slots@.contains_key(k));
                    assert(old(self).slots@.contains_key(old(self).keys@[last]@));
                    let sk = old(self).slots@[k].1 as int;
                    if slot < last && k == old(self).keys@[last]@ {
                    } else {
                        assert(sk != slot);
                        assert(sk != last);
                    }
                }
                assert forall|i: int| 0 <= i < self.keys@.len() implies {
                    &&& #[trigger] self.slots@.contains_key(self.keys@[i]@)
                    &&& self.slots@[self.keys@[i]@].1 == i
                } by {
                    assert(old(self).slots@.contains_key(old(self).keys@[i]@));
                    assert(old(self).slots@.contains_key(old(self).keys@[last]@));
                }
                Some(prev)
            },
        }
    }
}

} // verus!
