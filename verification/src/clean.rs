//! The clean pass: prune keys that no longer occur in any scanned source
//! file of an output directory, keep the surviving entries in their old
//! order, and fill missing default-language values with the key itself.

use vstd::prelude::*;

use crate::collect::{lemma_filter_push, lemma_filter_wf};
use crate::json::{json_to_map, map_to_json, parse_map, render_map};
use crate::tmap::{has_key, key_set, map_wf, value_of, EntryV, TranslationMap};

verus! {

/// The set of keys currently used by the scanned sources of one output
/// directory.
pub struct KeySet {
    items: Vec<String>,
}

impl View for KeySet {
    type V = Set<Seq<char>>;

    closed spec fn view(&self) -> Set<Seq<char>> {
        self.items.deep_view().to_set()
    }
}

impl KeySet {
    /// The empty key set.
    pub fn new() -> (r: KeySet)
        ensures
            r@ == Set::<Seq<char>>::empty(),
    {
        let r = KeySet { items: Vec::new() };
        proof {
            assert(r.items.deep_view() =~= Seq::<Seq<char>>::empty());
            assert(r@ =~= Set::<Seq<char>>::empty());
        }
        r
    }

    /// Whether `k` is a used key.
    pub fn contains(&self, k: &String) -> (r: bool)
        ensures
            r == self@.contains(k@),
    {
        let n = self.items.len();
        let mut i: usize = 0;
        while i < n
            invariant
                n == self.items.len(),
                i <= n,
                forall|j: int| 0 <= j < i ==> self.items.deep_view()[j] != k@,
            decreases n - i,
        {
            if self.items[i] == *k {
                assert(self.items.deep_view()[i as int] == k@);
                assert(self.items.deep_view().contains(k@));
                return true;
            }
            assert(self.items.deep_view()[i as int] != k@);
            i += 1;
        }
        proof {
            if self.items.deep_view().contains(k@) {
                let j = choose|j: int|
                    0 <= j < self.items.deep_view().len() && self.items.deep_view()[j] == k@;
            }
        }
        false
    }

    /// Add one key.
    pub fn insert(&mut self, k: String)
        ensures
            final(self)@ == old(self)@.insert(k@),
    {
        let ghost items0 = self.items.deep_view();
        if self.contains(&k) {
            proof {
                assert(self@ =~= old(self)@.insert(k@));
            }
        } else {
            self.items.push(k);
            proof {
                assert(self.items.deep_view() =~= items0.push(k@));
                assert(self@ =~= old(self)@.insert(k@)) by {
                    assert forall|x: Seq<char>| self.items.deep_view().contains(x) implies old(
                        self,
                    )@.insert(k@).contains(x) by {
                        let j = choose|j: int|
                            0 <= j < self.items.deep_view().len() && self.items.deep_view()[j] == x;
                        if j < items0.len() {
                            assert(items0.contains(x));
                        }
                    }
                    assert forall|x: Seq<char>| old(self)@.insert(k@).contains(x) implies self
                        .items.deep_view().contains(x) by {
                        if x == k@ {
                            assert(self.items.deep_view()[items0.len() as int] == k@);
                        } else {
                            let j = choose|j: int| 0 <= j < items0.len() && items0[j] == x;
                            assert(self.items.deep_view()[j] == x);
                        }
                    }
                }
            }
        }
    }

    /// Add every key of `keys`.
    pub fn add_keys(&mut self, keys: &Vec<String>)
        ensures
            final(self)@ == old(self)@.union(keys.deep_view().to_set()),
    {
        let ghost ks = keys.deep_view();
        let n = keys.len();
        let mut i: usize = 0;
        proof {
            assert(self@ =~= old(self)@.union(ks.take(0).to_set()));
        }
        while i < n
            invariant
                n == keys.len(),
                ks == keys.deep_view(),
                i <= n,
                self@ == old(self)@.union(ks.take(i as int).to_set()),
            decreases n - i,
        {
            self.insert(keys[i].clone());
            proof {
                assert(ks.take(i + 1 as int) =~= ks.take(i as int) + seq![ks[i as int]]);
                Seq::lemma_to_set_insert_commutes(ks.take(i as int), ks[i as int]);
                assert(ks.take(i + 1 as int).to_set() == ks.take(i as int).to_set().insert(
                    ks[i as int],
                ));
                assert(self@ =~= old(self)@.union(ks.take(i + 1 as int).to_set()));
            }
            i += 1;
        }
        proof {
            assert(ks.take(n as int) =~= ks);
        }
    }
}

// ------------------------------------------------------------------
// Pruning
// ------------------------------------------------------------------

/// The default-language backstop applied to one surviving entry: a null
/// value is replaced by the key itself; everything else is untouched.
pub open spec fn fill_entry(e: EntryV, is_default: bool) -> EntryV {
    if is_default && e.1 is None {
        (e.0, Some(e.0))
    } else {
        e
    }
}

/// The clean pass on one map view: keep exactly the entries whose key is
/// still used, in their old relative order, then fill null values with
/// the key itself in the default language.
pub open spec fn clean_views(m: Seq<EntryV>, used: Set<Seq<char>>, is_default: bool) -> Seq<
    EntryV,
> {
    m.filter(|e: EntryV| used.contains(e.0)).map_values(|e: EntryV| fill_entry(e, is_default))
}

/// How many null values the clean pass fills in.
pub open spec fn filled_count(m: Seq<EntryV>, used: Set<Seq<char>>, is_default: bool) -> int {
    if is_default {
        m.filter(|e: EntryV| used.contains(e.0) && e.1 is None).len() as int
    } else {
        0
    }
}

/// Prune one language map against the used-key set.  Returns the cleaned
/// map together with the number of values filled in; the number of
/// removed entries is the difference of the lengths.
pub fn clean_map(m: &TranslationMap, used: &KeySet, is_default: bool) -> (r: (TranslationMap, usize))
    requires
        m.wf(),
    ensures
        r.0@ == clean_views(m@, used@, is_default),
        r.0.wf(),
        r.1 == filled_count(m@, used@, is_default),
{
    let ghost mv = m@;
    let ghost uv = used@;
    let ghost keep = |e: EntryV| uv.contains(e.0);
    let ghost fills = |e: EntryV| uv.contains(e.0) && e.1 is None;
    let ghost filler = |e: EntryV| fill_entry(e, is_default);
    let mut out = TranslationMap::new();
    let mut filled: usize = 0;
    let n = m.len();
    let mut i: usize = 0;
    proof {
        reveal(Seq::filter);
        assert(mv.take(0) =~= Seq::<EntryV>::empty());
        assert(out@ =~= clean_views(mv.take(0), uv, is_default));
    }
    while i < n
        invariant
            n == mv.len(),
            mv == m@,
            uv == used@,
            m.wf(),
            i <= n,
            out.wf(),
            keep == (|e: EntryV| uv.contains(e.0)),
            fills == (|e: EntryV| uv.contains(e.0) && e.1 is None),
            filler == (|e: EntryV| fill_entry(e, is_default)),
            out@ == mv.take(i as int).filter(keep).map_values(filler),
            filled <= i,
            filled == (if is_default {
                mv.take(i as int).filter(fills).len() as int
            } else {
                0
            }),
        decreases n - i,
    {
        let ghost pre = mv.take(i as int);
        let ghost post = mv.take(i + 1 as int);
        proof {
            assert(post.drop_last() =~= pre);
            assert(post =~= pre.push(mv[i as int]));
            lemma_filter_push(pre, keep, mv[i as int]);
            lemma_filter_push(pre, fills, mv[i as int]);
        }
        let (k, v) = m.entry_at(i);
        assert(crate::tmap::entry_v((k, v)) == mv[i as int]);
        if used.contains(&k) {
            proof {
                assert(keep(mv[i as int]));
                assert(!has_key(out@, k@)) by {
                    if has_key(out@, k@) {
                        let p = choose|p: int| 0 <= p < out@.len() && out@[p].0 == k@;
                        let e = pre.filter(keep)[p];
                        assert(out@[p] == filler(e));
                        assert(e.0 == k@);
                        assert(pre.filter(keep).contains(e));
                        pre.lemma_filter_contains_rev(keep, e);
                        let l = choose|l: int| 0 <= l < pre.len() && pre[l] == e;
                        assert(mv[l].0 == mv[i as int].0);
                    }
                }
            }
            let filled_here = is_default && v.is_none();
            let value = if filled_here {
                Some(k.clone())
            } else {
                v
            };
            proof {
                assert(crate::tmap::entry_v((k, value)) == filler(mv[i as int]));
            }
            out.push_new(k, value);
            proof {
                assert(out@ =~= post.filter(keep).map_values(filler));
            }
            if filled_here {
                filled += 1;
            }
        } else {
            proof {
                assert(!keep(mv[i as int]));
                assert(!fills(mv[i as int]));
            }
        }
        i += 1;
    }
    proof {
        assert(mv.take(n as int) =~= mv);
    }
    (out, filled)
}

/// What the clean pass decides for one existing key file.
pub enum CleanOutcome {
    /// The file is not a JSON object of the expected shape: it is
    /// skipped, never rewritten.
    InvalidJson,
    /// No entry was removed and no value filled: the file is left
    /// untouched.
    Unchanged,
    /// The file must be rewritten with `json`; `removed` entries were
    /// pruned and `filled` null values were replaced by their key.
    Changed { json: String, removed: usize, filled: usize },
}

/// Clean one existing key file: parse it, prune unused keys in place,
/// fill null default-language values, and decide whether it has to be
/// rewritten.
pub fn clean_file_content(content: &String, used: &KeySet, is_default: bool) -> (r: CleanOutcome)
    ensures
        (match parse_map(content@) {
            None => r is InvalidJson,
            Some(m) => {
                if clean_views(m, used@, is_default).len() == m.len() && filled_count(
                    m,
                    used@,
                    is_default,
                ) == 0 {
                    r is Unchanged
                } else {
                    r matches CleanOutcome::Changed { json, removed, filled }
                        && json@ == render_map(clean_views(m, used@, is_default)) && removed
                        == m.len() - clean_views(m, used@, is_default).len() && filled
                        == filled_count(m, used@, is_default)
                }
            },
        }),
{
    match json_to_map(content) {
        None => CleanOutcome::InvalidJson,
        Some(m) => {
            let before = m.len();
            let (cleaned, filled) = clean_map(&m, used, is_default);
            let after = cleaned.len();
            proof {
                reveal(Seq::filter);
                m@.lemma_filter_len(|e: EntryV| used@.contains(e.0));
            }
            if before == after && filled == 0 {
                CleanOutcome::Unchanged
            } else {
                let json = map_to_json(&cleaned);
                CleanOutcome::Changed { json, removed: before - after, filled }
            }
        },
    }
}

// ------------------------------------------------------------------
// Laws of the clean pass
// ------------------------------------------------------------------

/// The cleaned map is well-formed, its keys are exactly the old keys
/// that are still used, and each surviving key keeps its old value,
/// except that a null default-language value becomes the key itself.
pub proof fn lemma_clean_views_wf(m: Seq<EntryV>, used: Set<Seq<char>>, is_default: bool)
    requires
        map_wf(m),
    ensures
        map_wf(clean_views(m, used, is_default)),
        forall|k: Seq<char>|
            #[trigger] has_key(clean_views(m, used, is_default), k) <==> (has_key(m, k)
                && used.contains(k)),
        forall|k: Seq<char>|
            has_key(m, k) && used.contains(k) ==> #[trigger] value_of(
                clean_views(m, used, is_default),
                k,
            ) == (if is_default && value_of(m, k) is None {
                Some(k)
            } else {
                value_of(m, k)
            }),
{
    let keep = |e: EntryV| used.contains(e.0);
    let filler = |e: EntryV| fill_entry(e, is_default);
    let f = m.filter(keep);
    let c = clean_views(m, used, is_default);
    lemma_filter_wf(m, keep);
    assert forall|i: int| 0 <= i < c.len() implies (#[trigger] c[i]).0 == f[i].0 && c[i] == filler(
        f[i],
    ) by {
        assert(c[i] == filler(f[i]));
    }
    assert(map_wf(c)) by {
        assert forall|i: int, j: int| 0 <= i < j < c.len() implies (#[trigger] c[i]).0 != (
        #[trigger] c[j]).0 by {
            assert(f[i].0 != f[j].0);
        }
    }
    // every filtered entry comes from the old map and is used
    assert forall|i: int| 0 <= i < f.len() implies used.contains((#[trigger] f[i]).0) && has_key(
        m,
        f[i].0,
    ) && value_of(m, f[i].0) == f[i].1 by {
        m.lemma_filter_pred(keep, i);
        assert(f.contains(f[i]));
        m.lemma_filter_contains_rev(keep, f[i]);
        let l = choose|l: int| 0 <= l < m.len() && m[l] == f[i];
        crate::tmap::lemma_value_at_index(m, l);
    }
    assert forall|k: Seq<char>| #[trigger] has_key(c, k) implies (has_key(m, k) && used.contains(
        k,
    )) by {
        let i = choose|i: int| 0 <= i < c.len() && c[i].0 == k;
        assert(f[i].0 == k);
    }
    assert forall|k: Seq<char>| has_key(m, k) && used.contains(k) implies #[trigger] has_key(
        c,
        k,
    ) && value_of(c, k) == (if is_default && value_of(m, k) is None {
        Some(k)
    } else {
        value_of(m, k)
    }) by {
        let l = choose|l: int| 0 <= l < m.len() && m[l].0 == k;
        assert(keep(m[l]));
        m.lemma_filter_contains(keep, l);
        let i = choose|i: int| 0 <= i < f.len() && f[i] == m[l];
        assert(c[i] == filler(m[l]));
        assert(c[i].0 == k);
        assert(has_key(c, k));
        crate::tmap::lemma_value_at_index(m, l);
        crate::tmap::lemma_value_at_index(c, i);
    }
    assert forall|k: Seq<char>| has_key(m, k) && used.contains(k) implies #[trigger] value_of(
        c,
        k,
    ) == (if is_default && value_of(m, k) is None {
        Some(k)
    } else {
        value_of(m, k)
    }) by {
        assert(has_key(c, k));
    }
}

/// Filtering preserves relative order: two surviving elements appear in
/// the filtered sequence in the order they had before.
pub proof fn lemma_filter_order<A>(s: Seq<A>, pred: spec_fn(A) -> bool, i: int, j: int)
    requires
        0 <= i < j < s.len(),
        pred(s[i]),
        pred(s[j]),
    ensures
        exists|p: int, q: int|
            0 <= p < q < s.filter(pred).len() && #[trigger] s.filter(pred)[p] == s[i]
                && #[trigger] s.filter(pred)[q] == s[j],
    decreases s.len(),
{
    reveal(Seq::filter);
    let f = s.filter(pred);
    let dl = s.drop_last();
    if j == s.len() - 1 {
        assert(dl[i] == s[i]);
        dl.lemma_filter_contains(pred, i);
        let p = choose|p: int| 0 <= p < dl.filter(pred).len() && dl.filter(pred)[p] == s[i];
        let q = f.len() - 1;
        assert(f[p] == s[i]);
        assert(f[q] == s[j]);
    } else {
        lemma_filter_order(dl, pred, i, j);
        let (p, q): (int, int) = choose|p: int, q: int|
            0 <= p < q < dl.filter(pred).len() && #[trigger] dl.filter(pred)[p] == dl[i]
                && #[trigger] dl.filter(pred)[q] == dl[j];
        assert(f[p] == s[i]);
        assert(f[q] == s[j]);
    }
}

/// Order preservation: if key `k1` stands before key `k2` in a file and
/// both survive the clean pass, `k1` still stands before `k2` afterwards.
pub proof fn lemma_clean_order(
    m: Seq<EntryV>,
    used: Set<Seq<char>>,
    is_default: bool,
    i: int,
    j: int,
)
    requires
        0 <= i < j < m.len(),
        used.contains(m[i].0),
        used.contains(m[j].0),
    ensures
        exists|p: int, q: int|
            0 <= p < q < clean_views(m, used, is_default).len() && (#[trigger] clean_views(
                m,
                used,
                is_default,
            )[p]).0 == m[i].0 && (#[trigger] clean_views(m, used, is_default)[q]).0 == m[j].0,
{
    let keep = |e: EntryV| used.contains(e.0);
    let c = clean_views(m, used, is_default);
    lemma_filter_order(m, keep, i, j);
    let (p, q): (int, int) = choose|p: int, q: int|
        0 <= p < q < m.filter(keep).len() && #[trigger] m.filter(keep)[p] == m[i]
            && #[trigger] m.filter(keep)[q] == m[j];
    assert(c[p] == fill_entry(m[i], is_default));
    assert(c[q] == fill_entry(m[j], is_default));
    assert(c[p].0 == m[i].0 && c[q].0 == m[j].0);
}

/// Pruning correctness, general form: the key set of the cleaned map is
/// the old key set intersected with the used keys.
pub proof fn lemma_clean_key_set(m: Seq<EntryV>, used: Set<Seq<char>>, is_default: bool)
    requires
        map_wf(m),
    ensures
        key_set(clean_views(m, used, is_default)) == key_set(m).intersect(used),
{
    lemma_clean_views_wf(m, used, is_default);
    let c = clean_views(m, used, is_default);
    assert forall|k: Seq<char>| #[trigger] key_set(c).contains(k) implies key_set(m).intersect(
        used,
    ).contains(k) by {
        let i = choose|i: int| 0 <= i < crate::tmap::keys_of(c).len() && crate::tmap::keys_of(c)[i] == k;
        assert(c[i].0 == k);
        assert(has_key(c, k));
        let l = choose|l: int| 0 <= l < m.len() && m[l].0 == k;
        assert(crate::tmap::keys_of(m)[l] == k);
        assert(crate::tmap::keys_of(m).contains(k));
    }
    assert forall|k: Seq<char>| key_set(m).intersect(used).contains(k) implies #[trigger] key_set(
        c,
    ).contains(k) by {
        let l = choose|l: int|
            0 <= l < crate::tmap::keys_of(m).len() && crate::tmap::keys_of(m)[l] == k;
        assert(m[l].0 == k);
        assert(has_key(m, k));
        assert(has_key(c, k));
        let i = choose|i: int| 0 <= i < c.len() && c[i].0 == k;
        assert(crate::tmap::keys_of(c)[i] == k);
        assert(crate::tmap::keys_of(c).contains(k));
    }
    assert(key_set(c) =~= key_set(m).intersect(used));
}

/// Pruning correctness, exact form: when every used key is present in
/// the file, the cleaned key set equals the used set exactly, no key
/// extra and none missing.
pub proof fn lemma_clean_exact(m: Seq<EntryV>, used: Set<Seq<char>>, is_default: bool)
    requires
        map_wf(m),
        used.subset_of(key_set(m)),
    ensures
        key_set(clean_views(m, used, is_default)) == used,
{
    lemma_clean_key_set(m, used, is_default);
    assert(key_set(m).intersect(used) =~= used);
}

/// Default self-fill after clean: every surviving default-language key
/// whose value was null, or already the key itself, ends up mapped to
/// itself.
pub proof fn lemma_clean_default_self_fill(m: Seq<EntryV>, used: Set<Seq<char>>, k: Seq<char>)
    requires
        map_wf(m),
        has_key(m, k),
        used.contains(k),
        value_of(m, k) is None || value_of(m, k) == Some(k),
    ensures
        has_key(clean_views(m, used, true), k),
        value_of(clean_views(m, used, true), k) == Some(k),
{
    lemma_clean_views_wf(m, used, true);
}

} // verus!
