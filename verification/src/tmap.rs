//! The insertion-ordered translation map: the in-memory form of one
//! `<language>.json` file, mapping each key to either a translated value
//! or a `null` placeholder (here `None`).

use vstd::prelude::*;

verus! {

/// The mathematical view of one map entry: the key and the optional value.
pub type EntryV = (Seq<char>, Option<Seq<char>>);

/// The view of one executable entry.
pub open spec fn entry_v(e: (String, Option<String>)) -> EntryV {
    (
        e.0@,
        match e.1 {
            Some(s) => Some(s@),
            None => None,
        },
    )
}

/// The keys of a map view, in entry order.
pub open spec fn keys_of(m: Seq<EntryV>) -> Seq<Seq<char>> {
    m.map_values(|e: EntryV| e.0)
}

/// The set of keys of a map view.
pub open spec fn key_set(m: Seq<EntryV>) -> Set<Seq<char>> {
    keys_of(m).to_set()
}

/// Well-formed: no key occurs in two entries.
pub open spec fn map_wf(m: Seq<EntryV>) -> bool {
    forall|i: int, j: int|
        0 <= i < j < m.len() ==> (#[trigger] m[i]).0 != (#[trigger] m[j]).0
}

/// Whether some entry of `m` has key `k`.
pub open spec fn has_key(m: Seq<EntryV>, k: Seq<char>) -> bool {
    exists|i: int| 0 <= i < m.len() && (#[trigger] m[i]).0 == k
}

/// The value stored at key `k` (meaningful only when `has_key(m, k)`).
pub open spec fn value_of(m: Seq<EntryV>, k: Seq<char>) -> Option<Seq<char>>
    recommends
        has_key(m, k),
{
    m[choose|i: int| 0 <= i < m.len() && (#[trigger] m[i]).0 == k].1
}

/// In a well-formed map, the entry at a key's index carries `value_of` that key.
pub proof fn lemma_value_at_index(m: Seq<EntryV>, i: int)
    requires
        map_wf(m),
        0 <= i < m.len(),
    ensures
        has_key(m, m[i].0),
        value_of(m, m[i].0) == m[i].1,
{
    assert(has_key(m, m[i].0));
    let j = choose|j: int| 0 <= j < m.len() && (#[trigger] m[j]).0 == m[i].0;
    assert(j == i);
}

/// An insertion-ordered map from translation key to optional value,
/// mirroring one per-language JSON file.  Entry order is significant:
/// it records first-discovery order merged with prior on-disk order.
pub struct TranslationMap {
    entries: Vec<(String, Option<String>)>,
}

impl View for TranslationMap {
    type V = Seq<EntryV>;

    closed spec fn view(&self) -> Seq<EntryV> {
        Seq::new(self.entries@.len(), |i: int| entry_v(self.entries@[i]))
    }
}

impl TranslationMap {
    /// Well-formed: keys are pairwise distinct.
    pub open spec fn wf(&self) -> bool {
        map_wf(self@)
    }

    /// The empty map.
    pub fn new() -> (r: TranslationMap)
        ensures
            r@ == Seq::<EntryV>::empty(),
            r.wf(),
    {
        let r = TranslationMap { entries: Vec::new() };
        proof {
            assert(r@ =~= Seq::<EntryV>::empty());
        }
        r
    }

    /// Number of entries.
    pub fn len(&self) -> (n: usize)
        ensures
            n == self@.len(),
    {
        self.entries.len()
    }

    /// The entry at position `i`, as a clone.
    pub fn entry_at(&self, i: usize) -> (e: (String, Option<String>))
        requires
            i < self@.len(),
        ensures
            entry_v(e) == self@[i as int],
    {
        let e = &self.entries[i];
        (e.0.clone(), clone_opt(&e.1))
    }

    /// Whether the map holds an entry for `key`.
    pub fn contains_key(&self, key: &String) -> (r: bool)
        ensures
            r == has_key(self@, key@),
    {
        let n = self.entries.len();
        let mut i: usize = 0;
        while i < n
            invariant
                n == self@.len(),
                i <= n,
                forall|j: int| 0 <= j < i ==> (#[trigger] self@[j]).0 != key@,
            decreases n - i,
        {
            if self.entries[i].0 == *key {
                assert(self@[i as int].0 == key@);
                return true;
            }
            i += 1;
        }
        false
    }

    /// The value stored for `key`: `None` if the key is absent,
    /// `Some(v)` if it is present with value `v`.
    pub fn get(&self, key: &String) -> (r: Option<Option<String>>)
        requires
            self.wf(),
        ensures
            r is Some <==> has_key(self@, key@),
            match r {
                Some(v) => has_key(self@, key@) && value_of(self@, key@) == (match v {
                    Some(s) => Some(s@),
                    None => None,
                }),
                None => !has_key(self@, key@),
            },
    {
        let n = self.entries.len();
        let mut i: usize = 0;
        while i < n
            invariant
                self.wf(),
                n == self@.len(),
                i <= n,
                forall|j: int| 0 <= j < i ==> (#[trigger] self@[j]).0 != key@,
            decreases n - i,
        {
            if self.entries[i].0 == *key {
                proof {
                    lemma_value_at_index(self@, i as int);
                }
                return Some(clone_opt(&self.entries[i].1));
            }
            i += 1;
        }
        None
    }

    /// Insert with the ordered-map rule: if `key` is already present, its
    /// value is replaced and its position kept; otherwise the new entry is
    /// appended at the end.
    #[verifier::loop_isolation(false)]
    pub fn insert(&mut self, key: String, value: Option<String>)
        requires
            old(self).wf(),
        ensures
            final(self).wf(),
            has_key(old(self)@, key@) ==> {
                &&& final(self)@.len() == old(self)@.len()
                &&& exists|i: int|
                    0 <= i < old(self)@.len() && (#[trigger] old(self)@[i]).0 == key@
                        && final(self)@ == old(self)@.update(i, entry_v((key, value)))
            },
            !has_key(old(self)@, key@) ==> final(self)@ == old(self)@.push(entry_v((key, value))),
            has_key(final(self)@, key@),
            value_of(final(self)@, key@) == entry_v((key, value)).1,
    {
        let ghost m0 = self@;
        let ghost e = entry_v((key, value));
        let n = self.entries.len();
        let mut i: usize = 0;
        while i < n
            invariant
                n == self@.len(),
                i <= n,
                self@ == m0,
                forall|j: int| 0 <= j < i ==> (#[trigger] self@[j]).0 != key@,
            decreases n - i,
        {
            if self.entries[i].0 == key {
                assert(m0[i as int].0 == key@);
                self.entries[i] = (key, value);
                proof {
                    assert(self@ =~= m0.update(i as int, e));
                    assert forall|p: int, q: int|
                        0 <= p < q < self@.len() implies (#[trigger] self@[p]).0 != (
                    #[trigger] self@[q]).0 by {
                        assert(m0[p].0 != m0[q].0);
                    }
                    lemma_value_at_index(self@, i as int);
                }
                return ;
            }
            i += 1;
        }
        self.entries.push((key, value));
        proof {
            assert(self@ =~= m0.push(e));
            assert(!has_key(m0, key@));
            assert forall|p: int, q: int|
                0 <= p < q < self@.len() implies (#[trigger] self@[p]).0 != (#[trigger] self@[q]).0
                by {
                if q < m0.len() {
                    assert(m0[p].0 != m0[q].0);
                } else {
                    assert(self@[q].0 == key@);
                }
            }
            lemma_value_at_index(self@, m0.len() as int);
        }
    }

    /// Append an entry whose key is known to be absent.
    pub fn push_new(&mut self, key: String, value: Option<String>)
        requires
            old(self).wf(),
            !has_key(old(self)@, key@),
        ensures
            final(self).wf(),
            final(self)@ == old(self)@.push(entry_v((key, value))),
    {
        let ghost m0 = self@;
        let ghost e = entry_v((key, value));
        self.entries.push((key, value));
        proof {
            assert(self@ =~= m0.push(e));
            assert forall|p: int, q: int|
                0 <= p < q < self@.len() implies (#[trigger] self@[p]).0 != (#[trigger] self@[q]).0
                by {
                if q < m0.len() {
                    assert(m0[p].0 != m0[q].0);
                } else {
                    assert(self@[q].0 == key@);
                }
            }
        }
    }
}

/// Clone an optional string, preserving its view.
pub fn clone_opt(v: &Option<String>) -> (r: Option<String>)
    ensures
        (match (v, &r) {
            (Some(a), Some(b)) => a@ == b@,
            (None, None) => true,
            _ => false,
        }),
{
    match v {
        Some(s) => Some(s.clone()),
        None => None,
    }
}

} // verus!
