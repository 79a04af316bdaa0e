//! A map from strings to strings with unique keys, kept as a list of entries.
use vstd::prelude::*;

verus! {

/// A string-to-string map. Inserting a key that is already present replaces
/// its value.
pub struct TextMap {
    entries: Vec<(String, String)>,
}

impl TextMap {
    /// Well-formed: no two entries share a key.
    pub closed spec fn wf(&self) -> bool {
        forall|i: int, j: int|
            0 <= i < j < self.entries@.len() ==> self.entries@[i].0@ != self.entries@[j].0@
    }

    /// `i` is an index of an entry whose key is `k`.
    closed spec fn holds_at(&self, k: Seq<char>, i: int) -> bool {
        0 <= i < self.entries@.len() && self.entries@[i].0@ == k
    }
}

impl View for TextMap {
    type V = Map<Seq<char>, Seq<char>>;

    closed spec fn view(&self) -> Map<Seq<char>, Seq<char>> {
        Map::new(
            |k: Seq<char>| exists|i: int| self.holds_at(k, i),
            |k: Seq<char>| self.entries@[choose|i: int| self.holds_at(k, i)].1@,
        )
    }
}

impl TextMap {
    /// An empty map.
    pub fn new() -> (r: TextMap)
        ensures
            r.wf(),
            r@ == Map::<Seq<char>, Seq<char>>::empty(),
    {
        let r = TextMap { entries: Vec::new() };
        assert(r@ =~= Map::<Seq<char>, Seq<char>>::empty());
        r
    }

    /// Maps `key` to `value`, replacing any value that `key` had.
    pub fn insert(&mut self, key: String, value: String)
        requires
            old(self).wf(),
        ensures
            final(self).wf(),
            final(self)@ == old(self)@.insert(key@, value@),
    {
        let ghost before = *self;
        let n = self.entries.len();
        let mut i: usize = 0;
        while i < n && !(self.entries[i].0 == key)
            invariant
                n == self.entries@.len(),
                *self == before,
                before.wf(),
                i <= n,
                forall|j: int| 0 <= j < i ==> self.entries@[j].0@ != key@,
            decreases n - i,
        {
            i = i + 1;
        }
        let ghost k = key@;
        let ghost v = value@;
        if i < n {
            assert(before.holds_at(k, i as int));
            self.entries.set(i, (key, value));
            assert forall|q: Seq<char>| #[trigger] self@.contains_key(q) == before@.insert(
                k,
                v,
            ).contains_key(q) by {
                if exists|j: int| before.holds_at(q, j) {
                    let j = choose|j: int| before.holds_at(q, j);
                    assert(self.holds_at(q, j));
                }
                if exists|j: int| self.holds_at(q, j) {
                    let j = choose|j: int| self.holds_at(q, j);
                    assert(before.holds_at(q, j));
                }
            }
            assert forall|q: Seq<char>| #[trigger] self@.contains_key(q) implies self@[q]
                == before@.insert(k, v)[q] by {
                let j = choose|j: int| self.holds_at(q, j);
                if q == k {
                    assert(j == i);
                } else {
                    let j0 = choose|j: int| before.holds_at(q, j);
                    assert(before.holds_at(q, j));
                    assert(j0 == j);
                }
            }
        } else {
            self.entries.push((key, value));
            assert forall|q: Seq<char>| #[trigger] self@.contains_key(q) == before@.insert(
                k,
                v,
            ).contains_key(q) by {
                if exists|j: int| before.holds_at(q, j) {
                    let j = choose|j: int| before.holds_at(q, j);
                    assert(self.holds_at(q, j));
                }
                if q == k {
                    assert(self.holds_at(q, n as int));
                }
                if exists|j: int| self.holds_at(q, j) {
                    let j = choose|j: int| self.holds_at(q, j);
                    if j < n {
                        assert(before.holds_at(q, j));
                    }
                }
            }
            assert forall|q: Seq<char>| #[trigger] self@.contains_key(q) implies self@[q]
                == before@.insert(k, v)[q] by {
                let j = choose|j: int| self.holds_at(q, j);
                if q == k {
                    assert(j == n);
                } else {
                    let j0 = choose|j: int| before.holds_at(q, j);
                    assert(before.holds_at(q, j));
                    assert(j0 == j);
                }
            }
        }
        assert(self@ =~= before@.insert(k, v));
    }

    /// Whether the map has no key.
    pub fn is_empty(&self) -> (r: bool)
        ensures
            r == (self@ == Map::<Seq<char>, Seq<char>>::empty()),
    {
        if self.entries.len() == 0 {
            assert(self@ =~= Map::<Seq<char>, Seq<char>>::empty());
            true
        } else {
            assert(self.holds_at(self.entries@[0].0@, 0));
            assert(self@.contains_key(self.entries@[0].0@));
            false
        }
    }

    /// The value that `key` maps to, if any.
    pub fn get(&self, key: &str) -> (r: Option<&String>)
        requires
            self.wf(),
        ensures
            r is None <==> !self@.contains_key(key@),
            r matches Some(v) ==> self@.contains_key(key@) && v@ == self@[key@],
    {
        let wanted = key.to_owned();
        let n = self.entries.len();
        let mut i: usize = 0;
        while i < n
            invariant
                n == self.entries@.len(),
                i <= n,
                wanted@ == key@,
                self.wf(),
                forall|j: int| 0 <= j < i ==> self.entries@[j].0@ != key@,
            decreases n - i,
        {
            if self.entries[i].0 == wanted {
                assert(self.holds_at(key@, i as int));
                proof {
                    let j = choose|j: int| self.holds_at(key@, j);
                    if j < i {
                        assert(self.entries@[j].0@ != key@);
                    } else if j > i {
                        assert(self.entries@[i as int].0@ != self.entries@[j].0@);
                    }
                }
                return Some(&self.entries[i].1);
            }
            i = i + 1;
        }
        None
    }
}

} // verus!
