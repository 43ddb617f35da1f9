//! The generate pass: walk the language-inheritance tree in pre-order,
//! resolve each language's map by overlaying its file's non-null values
//! on its parent's already-resolved map, and render the whole dictionary
//! artifact.

use vstd::prelude::*;

use crate::config::{LangV, LanguageNode};
use crate::error::Error;
use crate::json::{parse_map, push_str_chars, push_string_literal, render_string};
use crate::tmap::{clone_opt, has_key, map_wf, value_of, EntryV, TranslationMap};

verus! {

// ------------------------------------------------------------------
// Pre-order traversal
// ------------------------------------------------------------------

/// The `(language, parent)` pairs of a tree, in pre-order: each
/// language appears after its parent, so its parent's resolved map is
/// available when its own is built.
pub open spec fn preorder(n: LangV, parent: Option<Seq<char>>) -> Seq<
    (Seq<char>, Option<Seq<char>>),
>
    decreases n,
{
    seq![(n.name, parent)] + preorder_list(n.children, n.name)
}

/// The pairs of a forest whose parent is `parent`, in order.
pub open spec fn preorder_list(cs: Seq<LangV>, parent: Seq<char>) -> Seq<
    (Seq<char>, Option<Seq<char>>),
>
    decreases cs,
{
    if cs.len() == 0 {
        Seq::empty()
    } else {
        preorder_list(cs.drop_last(), parent) + preorder(cs.last(), Some(parent))
    }
}

/// The views of an executable pair list.
pub open spec fn lang_pairs_view(s: Seq<(String, Option<String>)>) -> Seq<
    (Seq<char>, Option<Seq<char>>),
> {
    s.map_values(
        |p: (String, Option<String>)|
            (
                p.0@,
                match p.1 {
                    Some(x) => Some(x@),
                    None => None,
                },
            ),
    )
}

/// Append the `(language, parent)` pairs of the tree under `node`, in
/// pre-order.
#[verifier::loop_isolation(false)]
pub fn walk_language_tree(
    node: &LanguageNode,
    parent: Option<String>,
    list: &mut Vec<(String, Option<String>)>,
)
    ensures
        lang_pairs_view(final(list)@) == lang_pairs_view(old(list)@) + preorder(
            node@,
            match parent {
                Some(p) => Some(p@),
                None => None,
            },
        ),
    decreases *node,
{
    let ghost l0 = lang_pairs_view(list@);
    let ghost pv = (match parent {
        Some(ref p) => Some(p@),
        None => None::<Seq<char>>,
    });
    let ghost cs = crate::config::langs_views(node.children@);
    proof {
        crate::config::lemma_langs_views_index(node.children@);
    }
    list.push((node.name.clone(), clone_opt(&parent)));
    proof {
        assert(lang_pairs_view(list@) =~= l0 + seq![(node@.name, pv)]);
        assert(preorder_list(cs.take(0), node@.name) =~= Seq::<(Seq<char>, Option<Seq<char>>)>::empty());
        assert(lang_pairs_view(list@) =~= l0 + seq![(node@.name, pv)] + preorder_list(
            cs.take(0),
            node@.name,
        ));
    }
    let n = node.children.len();
    let mut i: usize = 0;
    while i < n
        invariant
            i <= n,
            lang_pairs_view(list@) == l0 + seq![(node@.name, pv)] + preorder_list(
                cs.take(i as int),
                node@.name,
            ),
        decreases n - i,
    {
        proof {
            assert(decreases_to!(*node => node.children));
            assert(decreases_to!(node.children => node.children@));
            assert(decreases_to!(node.children@ => node.children@[i as int]));
        }
        walk_language_tree(&node.children[i], Some(node.name.clone()), list);
        proof {
            assert(cs.take(i + 1 as int).drop_last() =~= cs.take(i as int));
            assert(cs.take(i + 1 as int).last() == crate::config::lang_view(
                node.children@[i as int],
            ));
            assert(lang_pairs_view(list@) =~= l0 + seq![(node@.name, pv)] + preorder_list(
                cs.take(i + 1 as int),
                node@.name,
            ));
        }
        i += 1;
    }
    proof {
        assert(cs.take(n as int) =~= cs);
        assert(lang_pairs_view(list@) =~= l0 + preorder(node@, pv));
    }
}

// ------------------------------------------------------------------
// Sorted maps: the resolved per-language data
// ------------------------------------------------------------------

/// Strict lexicographic order on character sequences, by code point:
/// the order in which resolved keys and languages are emitted.
pub open spec fn seq_lt(a: Seq<char>, b: Seq<char>) -> bool
    decreases a.len(),
{
    if b.len() == 0 {
        false
    } else if a.len() == 0 {
        true
    } else if (a[0] as u32) < (b[0] as u32) {
        true
    } else if (a[0] as u32) > (b[0] as u32) {
        false
    } else {
        seq_lt(a.drop_first(), b.drop_first())
    }
}

/// Whether `a` comes strictly before `b`.
pub fn string_lt(a: &String, b: &String) -> (r: bool)
    ensures
        r == seq_lt(a@, b@),
{
    let x = a.as_str();
    let y = b.as_str();
    let n = x.unicode_len();
    let m = y.unicode_len();
    let mut i: usize = 0;
    proof {
        assert(a@.skip(0) =~= a@);
        assert(b@.skip(0) =~= b@);
    }
    while i < n && i < m
        invariant
            n == x@.len(),
            m == y@.len(),
            x@ == a@,
            y@ == b@,
            i <= n,
            i <= m,
            seq_lt(a@, b@) == seq_lt(a@.skip(i as int), b@.skip(i as int)),
            forall|j: int| 0 <= j < i ==> a@[j] == b@[j],
        decreases n - i,
    {
        let ca = x.get_char(i);
        let cb = y.get_char(i);
        if (ca as u32) < (cb as u32) {
            proof {
                assert(seq_lt(a@.skip(i as int), b@.skip(i as int)));
            }
            return true;
        }
        if (ca as u32) > (cb as u32) {
            proof {
                assert(!seq_lt(a@.skip(i as int), b@.skip(i as int)));
            }
            return false;
        }
        proof {
            assert(a@.skip(i as int).drop_first() =~= a@.skip(i + 1 as int));
            assert(b@.skip(i as int).drop_first() =~= b@.skip(i + 1 as int));
        }
        i += 1;
    }
    proof {
        if i >= m {
            assert(b@.skip(i as int).len() == 0);
            assert(!seq_lt(a@.skip(i as int), b@.skip(i as int)));
        } else {
            assert(a@.skip(i as int).len() == 0);
            assert(b@.skip(i as int).len() != 0);
            assert(seq_lt(a@.skip(i as int), b@.skip(i as int)));
        }
    }
    i < m
}

/// Equality and the strict order exclude each other, and the order is
/// total: exactly one of `a < b`, `a == b`, `b < a` holds.
pub proof fn lemma_seq_lt_trichotomy(a: Seq<char>, b: Seq<char>)
    ensures
        seq_lt(a, b) || seq_lt(b, a) || a == b,
        seq_lt(a, b) ==> !seq_lt(b, a) && a != b,
        seq_lt(b, a) ==> !seq_lt(a, b) && a != b,
    decreases a.len(),
{
    if a.len() > 0 && b.len() > 0 && (a[0] as u32) == (b[0] as u32) {
        lemma_seq_lt_trichotomy(a.drop_first(), b.drop_first());
        if a.drop_first() == b.drop_first() {
            assert(a[0] == b[0]) by {
                vstd::utf8::char_u32_cast(a[0], a[0] as u32);
                vstd::utf8::char_u32_cast(b[0], b[0] as u32);
            }
            assert(a.len() == b.len());
            assert forall|i: int| 0 <= i < a.len() implies a[i] == b[i] by {
                if i > 0 {
                    assert(a.drop_first()[i - 1] == b.drop_first()[i - 1]);
                }
            }
            assert(a =~= b);
        }
    }
}

/// A map kept sorted by its string keys: the in-memory form of one
/// language's fully resolved dictionary, and of the dictionary of all
/// languages.
pub struct SortedMap<V> {
    entries: Vec<(String, V)>,
}

impl<V: View> View for SortedMap<V> {
    type V = Seq<(Seq<char>, V::V)>;

    closed spec fn view(&self) -> Seq<(Seq<char>, V::V)> {
        Seq::new(self.entries@.len(), |i: int| (self.entries@[i].0@, self.entries@[i].1@))
    }
}

/// Whether a sorted-map view has key `k`.
pub open spec fn smap_has<T>(m: Seq<(Seq<char>, T)>, k: Seq<char>) -> bool {
    exists|i: int| 0 <= i < m.len() && (#[trigger] m[i]).0 == k
}

/// The value a sorted-map view holds at `k`.
pub open spec fn smap_value<T>(m: Seq<(Seq<char>, T)>, k: Seq<char>) -> T
    recommends
        smap_has(m, k),
{
    m[choose|i: int| 0 <= i < m.len() && (#[trigger] m[i]).0 == k].1
}

/// The key-value map a sorted-map view denotes.
pub open spec fn smap_map<T>(m: Seq<(Seq<char>, T)>) -> Map<Seq<char>, T> {
    Map::new(|k: Seq<char>| smap_has(m, k), |k: Seq<char>| smap_value(m, k))
}

/// Keys strictly ascending, hence unique.
pub open spec fn smap_wf<T>(m: Seq<(Seq<char>, T)>) -> bool {
    forall|i: int, j: int|
        0 <= i < j < m.len() ==> seq_lt((#[trigger] m[i]).0, (#[trigger] m[j]).0)
}

/// In a well-formed sorted view, the entry at an index determines the
/// value at its key.
pub proof fn lemma_smap_at_index<T>(m: Seq<(Seq<char>, T)>, i: int)
    requires
        smap_wf(m),
        0 <= i < m.len(),
    ensures
        smap_has(m, m[i].0),
        smap_value(m, m[i].0) == m[i].1,
{
    assert(smap_has(m, m[i].0));
    let j = choose|j: int| 0 <= j < m.len() && (#[trigger] m[j]).0 == m[i].0;
    if j != i {
        if j < i {
            lemma_seq_lt_trichotomy(m[j].0, m[i].0);
        } else {
            lemma_seq_lt_trichotomy(m[i].0, m[j].0);
        }
    }
}

impl<V: View> SortedMap<V> {
    /// Well-formed: keys strictly ascending, hence unique.
    pub open spec fn wf(&self) -> bool {
        smap_wf(self@)
    }

    /// The empty map.
    pub fn new() -> (r: SortedMap<V>)
        ensures
            r@ == Seq::<(Seq<char>, V::V)>::empty(),
            r.wf(),
    {
        let r = SortedMap { entries: Vec::new() };
        proof {
            assert(r@ =~= Seq::<(Seq<char>, V::V)>::empty());
        }
        r
    }

    /// Number of entries.
    pub fn len(&self) -> (n: usize)
        ensures
            n == self@.len(),
    {
        self.entries.len()
    }

    /// The entry at position `i`: the key as a clone, the value
    /// borrowed.
    pub fn pair_at(&self, i: usize) -> (e: (String, &V))
        requires
            i < self@.len(),
        ensures
            (e.0@, e.1@) == self@[i as int],
    {
        (self.entries[i].0.clone(), &self.entries[i].1)
    }

    /// The value stored at `key`, if any.
    pub fn get(&self, key: &String) -> (r: Option<&V>)
        requires
            self.wf(),
        ensures
            r is Some <==> smap_has(self@, key@),
            (match r {
                Some(v) => smap_has(self@, key@) && smap_value(self@, key@) == v@,
                None => !smap_has(self@, key@),
            }),
    {
        let n = self.entries.len();
        let mut i: usize = 0;
        while i < n
            invariant
                self.wf(),
                n == self@.len(),
                i <= n,
                forall|j: int| 0 <= j < i ==> (#[trigger] self@[j]).0 != key@,
            decreases n - i,
        {
            if self.entries[i].0 == *key {
                proof {
                    lemma_smap_at_index(self@, i as int);
                }
                return Some(&self.entries[i].1);
            }
            proof {
                assert(self@[i as int].0 != key@);
            }
            i += 1;
        }
        None
    }

    /// Insert a key, keeping the order; an existing key takes the new
    /// value.
    #[verifier::loop_isolation(false)]
    pub fn insert(&mut self, key: String, value: V)
        requires
            old(self).wf(),
        ensures
            final(self).wf(),
            smap_has(final(self)@, key@),
            smap_value(final(self)@, key@) == value@,
            forall|k2: Seq<char>|
                k2 != key@ ==> #[trigger] smap_has(final(self)@, k2) == smap_has(old(self)@, k2),
            forall|k2: Seq<char>|
                k2 != key@ && smap_has(old(self)@, k2) ==> #[trigger] smap_value(final(self)@, k2)
                    == smap_value(old(self)@, k2),
    {
        let ghost m0 = self@;
        let n = self.entries.len();
        let mut i: usize = 0;
        while i < n
            invariant
                i <= n,
                self@ == m0,
                n == self@.len(),
                forall|j: int| 0 <= j < i ==> seq_lt((#[trigger] self@[j]).0, key@),
            decreases n - i,
        {
            if string_lt(&self.entries[i].0, &key) {
                proof {
                    assert(self@[i as int].0 == self.entries@[i as int].0@);
                }
                i += 1;
            } else {
                break ;
            }
        }
        if i < n && !string_lt(&key, &self.entries[i].0) {
            // neither order holds: the keys are equal
            proof {
                lemma_seq_lt_trichotomy(key@, self@[i as int].0);
                assert(self@[i as int].0 == key@);
            }
            self.entries[i] = (key, value);
            proof {
                assert(self@ =~= m0.update(i as int, (m0[i as int].0, value@)));
                assert forall|p: int, q: int|
                    0 <= p < q < self@.len() implies seq_lt(
                    (#[trigger] self@[p]).0,
                    (#[trigger] self@[q]).0,
                ) by {
                    assert(seq_lt(m0[p].0, m0[q].0));
                }
                lemma_smap_at_index(self@, i as int);
                assert forall|k2: Seq<char>| k2 != key@ implies #[trigger] smap_has(self@, k2)
                    == smap_has(m0, k2) by {
                    if smap_has(m0, k2) {
                        let j = choose|j: int| 0 <= j < m0.len() && (#[trigger] m0[j]).0 == k2;
                        assert(self@[j] == m0[j]);
                        assert(smap_has(self@, k2));
                    }
                    if smap_has(self@, k2) {
                        let j = choose|j: int| 0 <= j < self@.len() && (#[trigger] self@[j]).0 == k2;
                        assert(m0[j].0 == k2);
                        assert(smap_has(m0, k2));
                    }
                }
                assert forall|k2: Seq<char>| k2 != key@ && smap_has(m0, k2) implies #[trigger] smap_value(
                    self@,
                    k2,
                ) == smap_value(m0, k2) by {
                    let j = choose|j: int| 0 <= j < m0.len() && (#[trigger] m0[j]).0 == k2;
                    assert(self@[j] == m0[j]);
                    lemma_smap_at_index(self@, j);
                    lemma_smap_at_index(m0, j);
                }
            }
        } else {
            // every earlier key is smaller, every later key larger
            proof {
                if i < n {
                    lemma_seq_lt_trichotomy(key@, self@[i as int].0);
                    assert(seq_lt(key@, self@[i as int].0));
                }
                assert forall|j: int| i <= j < n implies seq_lt(key@, (#[trigger] self@[j]).0) by {
                    if i < n && i < j {
                        assert(seq_lt(self@[i as int].0, self@[j].0));
                        lemma_seq_lt_transitive(key@, self@[i as int].0, self@[j].0);
                    }
                }
            }
            self.entries.insert(i, (key, value));
            proof {
                assert(self@ =~= m0.insert(i as int, (key@, value@)));
                assert forall|p: int, q: int|
                    0 <= p < q < self@.len() implies seq_lt(
                    (#[trigger] self@[p]).0,
                    (#[trigger] self@[q]).0,
                ) by {
                    if p < i {
                        assert(self@[p] == m0[p]);
                    } else if p == i {
                        assert(self@[p] == (key@, value@));
                    } else {
                        assert(self@[p] == m0[p - 1]);
                    }
                    if q < i {
                        assert(self@[q] == m0[q]);
                    } else if q == i {
                        assert(self@[q] == (key@, value@));
                    } else {
                        assert(self@[q] == m0[q - 1]);
                    }
                }
                lemma_smap_at_index(self@, i as int);
                assert forall|k2: Seq<char>| k2 != key@ implies #[trigger] smap_has(self@, k2)
                    == smap_has(m0, k2) by {
                    if smap_has(m0, k2) {
                        let j = choose|j: int| 0 <= j < m0.len() && (#[trigger] m0[j]).0 == k2;
                        let j2: int = (if j < i { j } else { j + 1 });
                        assert(self@[j2] == m0[j]);
                        assert(smap_has(self@, k2));
                    }
                    if smap_has(self@, k2) {
                        let j = choose|j: int| 0 <= j < self@.len() && (#[trigger] self@[j]).0 == k2;
                        if j < i {
                            assert(m0[j].0 == k2);
                        } else {
                            assert(m0[j - 1].0 == k2);
                        }
                        assert(smap_has(m0, k2));
                    }
                }
                assert forall|k2: Seq<char>| k2 != key@ && smap_has(m0, k2) implies #[trigger] smap_value(
                    self@,
                    k2,
                ) == smap_value(m0, k2) by {
                    let j = choose|j: int| 0 <= j < m0.len() && (#[trigger] m0[j]).0 == k2;
                    let j2: int = (if j < i { j } else { j + 1 });
                    assert(self@[j2] == m0[j]);
                    lemma_smap_at_index(self@, j2);
                    lemma_smap_at_index(m0, j);
                }
            }
        }
    }
}

impl SortedMap<String> {
    /// An identical copy.
    pub fn duplicate(&self) -> (r: SortedMap<String>)
        ensures
            r@ == self@,
    {
        let n = self.entries.len();
        let mut entries: Vec<(String, String)> = Vec::new();
        let mut i: usize = 0;
        while i < n
            invariant
                n == self.entries@.len(),
                i <= n,
                entries@.len() == i,
                forall|j: int|
                    0 <= j < i ==> ((#[trigger] entries@[j]).0@, entries@[j].1@) == self@[j],
            decreases n - i,
        {
            entries.push((self.entries[i].0.clone(), self.entries[i].1.clone()));
            i += 1;
        }
        let r = SortedMap { entries };
        proof {
            assert(r@ =~= self@);
        }
        r
    }
}

/// The strict order is transitive.
pub proof fn lemma_seq_lt_transitive(a: Seq<char>, b: Seq<char>, c: Seq<char>)
    requires
        seq_lt(a, b),
        seq_lt(b, c),
    ensures
        seq_lt(a, c),
    decreases a.len() + b.len() + c.len(),
{
    if b.len() > 0 && c.len() > 0 && a.len() > 0 {
        if (a[0] as u32) == (b[0] as u32) && (b[0] as u32) == (c[0] as u32) {
            lemma_seq_lt_transitive(a.drop_first(), b.drop_first(), c.drop_first());
        }
    }
}

// ------------------------------------------------------------------
// Resolving one language
// ------------------------------------------------------------------

/// The payload of an optional value (meaningful only for `Some`).
pub open spec fn some_value(o: Option<Seq<char>>) -> Seq<char> {
    match o {
        Some(x) => x,
        None => Seq::empty(),
    }
}

/// The resolved (non-null) entries of a key file, as a map.
pub open spec fn nonnull_map(m: Seq<EntryV>) -> Map<Seq<char>, Seq<char>> {
    Map::new(
        |k: Seq<char>| has_key(m, k) && value_of(m, k) is Some,
        |k: Seq<char>| some_value(value_of(m, k)),
    )
}

/// The map view an optional parent contributes.
pub open spec fn parent_map(parent: Option<Seq<(Seq<char>, Seq<char>)>>) -> Map<
    Seq<char>,
    Seq<char>,
> {
    match parent {
        Some(p) => smap_map(p),
        None => Map::empty(),
    }
}

/// Inheritance fallback: a language's resolved map is its parent's
/// resolved map with the language's own non-null file entries laid over
/// it, so every key the language leaves untranslated falls back to its
/// ancestor chain.
#[verifier::loop_isolation(false)]
pub fn resolve_language(parent: Option<&SortedMap<String>>, file_map: Option<&TranslationMap>) -> (r:
    SortedMap<String>)
    requires
        (match parent {
            Some(p) => p.wf(),
            None => true,
        }),
        (match file_map {
            Some(m) => m.wf(),
            None => true,
        }),
    ensures
        r.wf(),
        smap_map(r@) == parent_map(
            match parent {
                Some(p) => Some(p@),
                None => None,
            },
        ).union_prefer_right(
            match file_map {
                Some(m) => nonnull_map(m@),
                None => Map::empty(),
            },
        ),
{
    let ghost base = parent_map(
        match parent {
            Some(p) => Some(p@),
            None => None::<Seq<(Seq<char>, Seq<char>)>>,
        },
    );
    let mut r = match parent {
        Some(p) => p.duplicate(),
        None => SortedMap::new(),
    };
    proof {
        assert(smap_map(r@) =~= base);
    }
    match file_map {
        None => {
            proof {
                assert(smap_map(r@) =~= base.union_prefer_right(Map::<Seq<char>, Seq<char>>::empty()));
            }
            r
        },
        Some(m) => {
            let ghost mv = m@;
            let n = m.len();
            let mut i: usize = 0;
            proof {
                assert(nonnull_map(mv.take(0)) =~= Map::<Seq<char>, Seq<char>>::empty());
                assert(smap_map(r@) =~= base.union_prefer_right(nonnull_map(mv.take(0))));
            }
            while i < n
                invariant
                    i <= n,
                    r.wf(),
                    smap_map(r@) == base.union_prefer_right(nonnull_map(mv.take(i as int))),
                decreases n - i,
            {
                let ghost pre = mv.take(i as int);
                let ghost post = mv.take(i + 1 as int);
                proof {
                    assert(map_wf(post)) by {
                        assert forall|p: int, q: int|
                            0 <= p < q < post.len() implies (#[trigger] post[p]).0 != (
                        #[trigger] post[q]).0 by {
                            assert(mv[p].0 != mv[q].0);
                        }
                    }
                    assert(map_wf(pre)) by {
                        assert forall|p: int, q: int|
                            0 <= p < q < pre.len() implies (#[trigger] pre[p]).0 != (
                        #[trigger] pre[q]).0 by {
                            assert(mv[p].0 != mv[q].0);
                        }
                    }
                }
                let (k, v) = m.entry_at(i);
                proof {
                    assert(crate::tmap::entry_v((k, v)) == mv[i as int]);
                    crate::tmap::lemma_value_at_index(post, i as int);
                    assert forall|k2: Seq<char>| k2 != mv[i as int].0 implies (has_key(post, k2)
                        == has_key(pre, k2) && (has_key(pre, k2) ==> value_of(post, k2) == value_of(
                        pre,
                        k2,
                    ))) by {
                        if has_key(pre, k2) {
                            let j = choose|j: int| 0 <= j < pre.len() && (#[trigger] pre[j]).0 == k2;
                            assert(post[j].0 == k2);
                            assert(has_key(post, k2));
                            crate::tmap::lemma_value_at_index(pre, j);
                            crate::tmap::lemma_value_at_index(post, j);
                        }
                        if has_key(post, k2) {
                            let j = choose|j: int|
                                0 <= j < post.len() && (#[trigger] post[j]).0 == k2;
                            assert(j < pre.len());
                            assert(pre[j].0 == k2);
                            assert(has_key(pre, k2));
                        }
                    }
                }
                match v {
                    Some(val) => {
                        let ghost r0 = r@;
                        let ghost k0 = mv[i as int].0;
                        let ghost val0 = some_value(mv[i as int].1);
                        r.insert(k, val);
                        proof {
                            assert forall|k2: Seq<char>| true implies (smap_has(r@, k2) == (
                            base.dom().contains(k2) || nonnull_map(post).dom().contains(k2))
                                && (smap_has(r@, k2) ==> smap_value(r@, k2) == (
                            if nonnull_map(post).dom().contains(k2) {
                                nonnull_map(post)[k2]
                            } else {
                                base[k2]
                            }))) by {
                                if k2 == k0 {
                                    assert(value_of(post, k0) == Some(val0));
                                    assert(nonnull_map(post).dom().contains(k0));
                                    assert(smap_has(r@, k0));
                                    assert(smap_value(r@, k0) == val0);
                                } else {
                                    assert(smap_has(r@, k2) == smap_has(r0, k2));
                                    assert(smap_map(r0).dom().contains(k2) == smap_has(r0, k2));
                                    assert(nonnull_map(post).dom().contains(k2) == nonnull_map(
                                        pre,
                                    ).dom().contains(k2));
                                    if smap_has(r0, k2) {
                                        assert(smap_value(r@, k2) == smap_value(r0, k2));
                                        assert(smap_map(r0)[k2] == smap_value(r0, k2));
                                    }
                                    if nonnull_map(pre).dom().contains(k2) {
                                        assert(nonnull_map(post)[k2] == nonnull_map(pre)[k2]);
                                    }
                                }
                            }
                            assert(smap_map(r@) =~= base.union_prefer_right(nonnull_map(post)));
                        }
                    },
                    None => {
                        proof {
                            assert(nonnull_map(post) =~= nonnull_map(pre));
                        }
                    },
                }
                i += 1;
            }
            proof {
                assert(mv.take(n as int) =~= mv);
            }
            r
        },
    }
}

// ------------------------------------------------------------------
// Building all dictionaries
// ------------------------------------------------------------------

/// The contents of optional file texts, as views.
pub open spec fn contents_view(s: Seq<Option<String>>) -> Seq<Option<Seq<char>>> {
    s.map_values(
        |c: Option<String>|
            match c {
                Some(t) => Some(t@),
                None => None,
            },
    )
}

/// What processing the ordered `(language, parent)` list against the
/// file texts yields: each language's resolved map seeds from its
/// parent's already-resolved map (empty when the parent is absent or
/// unresolved), overlays its file's non-null entries, and is recorded
/// under its name, later same-named languages overwriting earlier ones.
/// A file that is not a JSON object of the expected shape is a fatal
/// error.
pub open spec fn spec_build_dicts(
    pairs: Seq<(Seq<char>, Option<Seq<char>>)>,
    contents: Seq<Option<Seq<char>>>,
) -> Result<Map<Seq<char>, Map<Seq<char>, Seq<char>>>, ()>
    recommends
        pairs.len() == contents.len(),
    decreases pairs.len(),
{
    if pairs.len() == 0 {
        Ok(Map::empty())
    } else {
        match spec_build_dicts(pairs.drop_last(), contents.drop_last()) {
            Err(e) => Err(e),
            Ok(acc) => {
                let (lang, par) = pairs.last();
                let base = (match par {
                    Some(p) => if acc.dom().contains(p) {
                        acc[p]
                    } else {
                        Map::empty()
                    },
                    None => Map::empty(),
                });
                match contents.last() {
                    None => Ok(acc.insert(lang, base)),
                    Some(text) => match parse_map(text) {
                        None => Err(()),
                        Some(m) => Ok(acc.insert(lang, base.union_prefer_right(nonnull_map(m)))),
                    },
                }
            },
        }
    }
}

/// An error in a prefix of the language list is an error of the whole
/// run.
pub proof fn lemma_build_dicts_err(
    pairs: Seq<(Seq<char>, Option<Seq<char>>)>,
    contents: Seq<Option<Seq<char>>>,
    i: int,
)
    requires
        pairs.len() == contents.len(),
        0 <= i <= pairs.len(),
        spec_build_dicts(pairs.take(i), contents.take(i)) is Err,
    ensures
        spec_build_dicts(pairs, contents) is Err,
    decreases pairs.len() - i,
{
    if i < pairs.len() {
        assert(pairs.take(i + 1).drop_last() =~= pairs.take(i));
        assert(contents.take(i + 1).drop_last() =~= contents.take(i));
        lemma_build_dicts_err(pairs, contents, i + 1);
    } else {
        assert(pairs.take(i) =~= pairs);
        assert(contents.take(i) =~= contents);
    }
}

/// The dictionary a sorted dictionary-of-maps denotes.
pub open spec fn dicts_map(d: Seq<(Seq<char>, Seq<(Seq<char>, Seq<char>)>)>) -> Map<
    Seq<char>,
    Map<Seq<char>, Seq<char>>,
> {
    Map::new(|k: Seq<char>| smap_has(d, k), |k: Seq<char>| smap_map(smap_value(d, k)))
}

/// Build every language's resolved map, in pre-order: `pairs` comes
/// from `walk_language_tree`, `contents` holds the text of each
/// language's key file, or nothing where the file does not exist.
#[verifier::loop_isolation(false)]
pub fn build_dictionaries(
    pairs: &Vec<(String, Option<String>)>,
    contents: &Vec<Option<String>>,
) -> (r: Result<SortedMap<SortedMap<String>>, Error>)
    requires
        pairs@.len() == contents@.len(),
    ensures
        (match r {
            Ok(d) => d.wf() && (forall|i: int|
                0 <= i < d@.len() ==> smap_wf((#[trigger] d@[i]).1)) && spec_build_dicts(
                lang_pairs_view(pairs@),
                contents_view(contents@),
            ) == Ok::<_, ()>(dicts_map(d@)),
            Err(_) => spec_build_dicts(lang_pairs_view(pairs@), contents_view(contents@)) is Err,
        }),
{
    let ghost pv = lang_pairs_view(pairs@);
    let ghost cv = contents_view(contents@);
    let mut dicts: SortedMap<SortedMap<String>> = SortedMap::new();
    let n = pairs.len();
    let mut i: usize = 0;
    proof {
        assert(pv.take(0) =~= Seq::<(Seq<char>, Option<Seq<char>>)>::empty());
        assert(cv.take(0) =~= Seq::<Option<Seq<char>>>::empty());
        assert(dicts_map(dicts@) =~= Map::<Seq<char>, Map<Seq<char>, Seq<char>>>::empty());
    }
    while i < n
        invariant
            i <= n,
            dicts.wf(),
            forall|j: int| 0 <= j < dicts@.len() ==> smap_wf((#[trigger] dicts@[j]).1),
            spec_build_dicts(pv.take(i as int), cv.take(i as int)) == Ok::<_, ()>(
                dicts_map(dicts@),
            ),
        decreases n - i,
    {
        proof {
            assert(pv.take(i + 1 as int).drop_last() =~= pv.take(i as int));
            assert(cv.take(i + 1 as int).drop_last() =~= cv.take(i as int));
            assert(pv.take(i + 1 as int).last() == pv[i as int]);
            assert(cv.take(i + 1 as int).last() == cv[i as int]);
        }
        let lang = pairs[i].0.clone();
        let ghost d0 = dicts@;
        let base: SortedMap<String> = match &pairs[i].1 {
            Some(p) => match dicts.get(p) {
                Some(pm) => pm.duplicate(),
                None => SortedMap::new(),
            },
            None => SortedMap::new(),
        };
        proof {
            assert(smap_map(base@) == (match pv[i as int].1 {
                Some(p) => if dicts_map(d0).dom().contains(p) {
                    dicts_map(d0)[p]
                } else {
                    Map::<Seq<char>, Seq<char>>::empty()
                },
                None => Map::<Seq<char>, Seq<char>>::empty(),
            })) by {
                match pv[i as int].1 {
                    Some(p) => {
                        if smap_has(d0, p) {
                        } else {
                            assert(smap_map(base@) =~= Map::<Seq<char>, Seq<char>>::empty());
                        }
                    },
                    None => {
                        assert(smap_map(base@) =~= Map::<Seq<char>, Seq<char>>::empty());
                    },
                }
            }
            assert(smap_wf(base@)) by {
                match pv[i as int].1 {
                    Some(p) => {},
                    None => {},
                }
            }
        }
        let resolved: SortedMap<String> = match &contents[i] {
            None => base,
            Some(text) => {
                match crate::json::json_to_map(text) {
                    None => {
                        proof {
                            assert(spec_build_dicts(pv.take(i + 1 as int), cv.take(i + 1 as int))
                                is Err);
                            lemma_build_dicts_err(pv, cv, i + 1 as int);
                        }
                        return Err(
                            Error::Decode {
                                message: String::from_str("invalid JSON in a language file"),
                            },
                        );
                    },
                    Some(m) => {
                        let merged = resolve_language(Some(&base), Some(&m));
                        merged
                    },
                }
            },
        };
        proof {
            match cv[i as int] {
                None => {
                    assert(smap_map(resolved@) =~= smap_map(base@).union_prefer_right(
                        Map::<Seq<char>, Seq<char>>::empty(),
                    ));
                },
                Some(_) => {},
            }
        }
        let ghost before = dicts@;
        dicts.insert(lang, resolved);
        proof {
            assert(dicts_map(dicts@) =~= dicts_map(before).insert(
                pv[i as int].0,
                smap_map(resolved@),
            )) by {
                assert forall|k2: Seq<char>| true implies dicts_map(dicts@).dom().contains(k2)
                    == dicts_map(before).insert(pv[i as int].0, smap_map(resolved@)).dom().contains(
                    k2,
                ) && (dicts_map(dicts@).dom().contains(k2) ==> dicts_map(dicts@)[k2] == dicts_map(
                    before,
                ).insert(pv[i as int].0, smap_map(resolved@))[k2]) by {
                }
            }
            assert forall|j: int| 0 <= j < dicts@.len() implies smap_wf(
                (#[trigger] dicts@[j]).1,
            ) by {
                let k2 = dicts@[j].0;
                lemma_smap_at_index(dicts@, j);
                if k2 == pv[i as int].0 {
                } else {
                    assert(smap_has(before, k2));
                    let l = choose|l: int| 0 <= l < before.len() && (#[trigger] before[l]).0 == k2;
                    lemma_smap_at_index(before, l);
                }
            }
            assert(spec_build_dicts(pv.take(i + 1 as int), cv.take(i + 1 as int)) == Ok::<_, ()>(
                dicts_map(dicts@),
            ));
        }
        i += 1;
    }
    proof {
        assert(pv.take(n as int) =~= pv);
        assert(cv.take(n as int) =~= cv);
    }
    Ok(dicts)
}

// ------------------------------------------------------------------
// Rendering the artifact
// ------------------------------------------------------------------

/// One resolved key line of the artifact, at the inner indent.
pub open spec fn render_res_entry(e: (Seq<char>, Seq<char>)) -> Seq<char> {
    seq![' ', ' ', ' ', ' '] + render_string(e.0) + seq![':', ' '] + render_string(e.1)
}

/// All key lines of one language, joined by `,\n`.
pub open spec fn render_res_entries(m: Seq<(Seq<char>, Seq<char>)>) -> Seq<char>
    decreases m.len(),
{
    if m.len() == 0 {
        Seq::empty()
    } else if m.len() == 1 {
        render_res_entry(m[0])
    } else {
        render_res_entries(m.drop_last()) + seq![',', '\n'] + render_res_entry(m.last())
    }
}

/// One language's resolved map, pretty-printed at the outer indent.
pub open spec fn render_res_map(m: Seq<(Seq<char>, Seq<char>)>) -> Seq<char> {
    if m.len() == 0 {
        seq!['{', '}']
    } else {
        seq!['{', '\n'] + render_res_entries(m) + seq!['\n', ' ', ' ', '}']
    }
}

/// One language line of the dictionary.
pub open spec fn render_dict_entry(e: (Seq<char>, Seq<(Seq<char>, Seq<char>)>)) -> Seq<char> {
    seq![' ', ' '] + render_string(e.0) + seq![':', ' '] + render_res_map(e.1)
}

/// All language lines, joined by `,\n`.
pub open spec fn render_dict_entries(d: Seq<(Seq<char>, Seq<(Seq<char>, Seq<char>)>)>) -> Seq<
    char,
>
    decreases d.len(),
{
    if d.len() == 0 {
        Seq::empty()
    } else if d.len() == 1 {
        render_dict_entry(d[0])
    } else {
        render_dict_entries(d.drop_last()) + seq![',', '\n'] + render_dict_entry(d.last())
    }
}

/// The whole dictionary object.
pub open spec fn render_dict(d: Seq<(Seq<char>, Seq<(Seq<char>, Seq<char>)>)>) -> Seq<char> {
    if d.len() == 0 {
        seq!['{', '}']
    } else {
        seq!['{', '\n'] + render_dict_entries(d) + seq!['\n', '}']
    }
}

/// The full text of the generated artifact: the exported constant named
/// after the output directory, and the exported union type of all
/// per-language shapes.
pub open spec fn artifact_text(output: Seq<char>, d: Seq<
    (Seq<char>, Seq<(Seq<char>, Seq<char>)>),
>) -> Seq<char> {
    "export const "@ + output + " = "@ + render_dict(d)
        + " as const;\n\nexport type Dict = typeof "@ + output + "[keyof typeof "@ + output
        + "];\n"@
}

/// Render one language's resolved map at the outer indent.
#[verifier::loop_isolation(false)]
fn push_res_map(out: &mut Vec<char>, m: &SortedMap<String>)
    ensures
        final(out)@ == old(out)@ + render_res_map(m@),
{
    let ghost o0 = out@;
    let ghost mv = m@;
    let n = m.len();
    if n == 0 {
        out.push('{');
        out.push('}');
        proof {
            assert(out@ =~= o0 + render_res_map(mv));
        }
        return ;
    }
    out.push('{');
    out.push('\n');
    let mut i: usize = 0;
    proof {
        assert(render_res_entries(mv.take(0)) =~= Seq::<char>::empty());
        assert(out@ =~= o0 + seq!['{', '\n'] + render_res_entries(mv.take(0)));
    }
    while i < n
        invariant
            0 < n == mv.len(),
            i <= n,
            out@ == o0 + seq!['{', '\n'] + render_res_entries(mv.take(i as int)),
        decreases n - i,
    {
        let ghost pre = mv.take(i as int);
        let ghost post = mv.take(i + 1 as int);
        if i > 0 {
            out.push(',');
            out.push('\n');
        }
        let (k, v) = m.pair_at(i);
        out.push(' ');
        out.push(' ');
        out.push(' ');
        out.push(' ');
        push_string_literal(out, &k);
        out.push(':');
        out.push(' ');
        push_string_literal(out, v);
        proof {
            assert(post.drop_last() =~= pre);
            assert(post.last() == mv[i as int]);
            assert(out@ =~= o0 + seq!['{', '\n'] + render_res_entries(post));
        }
        i += 1;
    }
    out.push('\n');
    out.push(' ');
    out.push(' ');
    out.push('}');
    proof {
        assert(mv.take(n as int) =~= mv);
        assert(out@ =~= o0 + render_res_map(mv));
    }
}

/// Render the artifact text for the dictionary of all languages; the
/// exported constant carries the output directory's name.
#[verifier::loop_isolation(false)]
pub fn render_artifact(output: &String, dicts: &SortedMap<SortedMap<String>>) -> (r: String)
    ensures
        r@ == artifact_text(output@, dicts@),
{
    let ghost dv = dicts@;
    let mut out: Vec<char> = Vec::new();
    push_str_chars(&mut out, "export const ");
    push_str_chars(&mut out, output.as_str());
    push_str_chars(&mut out, " = ");
    let ghost o0 = out@;
    let n = dicts.len();
    if n == 0 {
        out.push('{');
        out.push('}');
        proof {
            assert(out@ =~= o0 + render_dict(dv));
        }
    } else {
        out.push('{');
        out.push('\n');
        let mut i: usize = 0;
        proof {
            assert(render_dict_entries(dv.take(0)) =~= Seq::<char>::empty());
            assert(out@ =~= o0 + seq!['{', '\n'] + render_dict_entries(dv.take(0)));
        }
        while i < n
            invariant
                0 < n == dv.len(),
                i <= n,
                out@ == o0 + seq!['{', '\n'] + render_dict_entries(dv.take(i as int)),
            decreases n - i,
        {
            let ghost pre = dv.take(i as int);
            let ghost post = dv.take(i + 1 as int);
            if i > 0 {
                out.push(',');
                out.push('\n');
            }
            let (lang, m) = dicts.pair_at(i);
            out.push(' ');
            out.push(' ');
            push_string_literal(&mut out, &lang);
            out.push(':');
            out.push(' ');
            push_res_map(&mut out, m);
            proof {
                assert(post.drop_last() =~= pre);
                assert(post.last() == dv[i as int]);
                assert(out@ =~= o0 + seq!['{', '\n'] + render_dict_entries(post));
            }
            i += 1;
        }
        out.push('\n');
        out.push('}');
        proof {
            assert(dv.take(n as int) =~= dv);
            assert(out@ =~= o0 + render_dict(dv));
        }
    }
    push_str_chars(&mut out, " as const;\n\nexport type Dict = typeof ");
    push_str_chars(&mut out, output.as_str());
    push_str_chars(&mut out, "[keyof typeof ");
    push_str_chars(&mut out, output.as_str());
    push_str_chars(&mut out, "];\n");
    proof {
        assert(out@ =~= artifact_text(output@, dv));
    }
    crate::json::chars_to_string(&out)
}

} // verus!
