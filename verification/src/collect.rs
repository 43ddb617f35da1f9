//! The collect pass: extract translation keys from the call expressions of
//! a source file, accumulate them into per-language fresh maps, and merge
//! those with the maps already on disk without destroying existing
//! translations.

use vstd::prelude::*;

use crate::json::{map_to_json, parse_map, render_map};
use crate::tmap::{has_key, map_wf, value_of, EntryV, TranslationMap};

verus! {

// ------------------------------------------------------------------
// Source key scanner
// ------------------------------------------------------------------

/// One call expression, as seen during the depth-first walk of a parsed
/// source file, stripped down to what key extraction reads: the callee
/// (when it is a bare identifier) and the first argument (when it is a
/// string literal).  Events arrive in document order, nested calls
/// included.
pub struct CallEvent {
    /// The callee's identifier text, when the callee is a bare identifier.
    pub callee: Option<String>,
    /// The first argument's literal text, when it is a string literal.
    pub first_arg_str: Option<String>,
}

/// The mathematical view of a call event.
pub struct CallEventV {
    pub callee: Option<Seq<char>>,
    pub first_arg_str: Option<Seq<char>>,
}

impl View for CallEvent {
    type V = CallEventV;

    open spec fn view(&self) -> CallEventV {
        CallEventV {
            callee: match self.callee {
                Some(s) => Some(s@),
                None => None,
            },
            first_arg_str: match self.first_arg_str {
                Some(s) => Some(s@),
                None => None,
            },
        }
    }
}

/// The views of a sequence of call events.
pub open spec fn views_of_events(s: Seq<CallEvent>) -> Seq<CallEventV> {
    s.map_values(|e: CallEvent| e@)
}

/// The key a single call contributes: the first argument's literal text,
/// when the callee is a bare identifier in the marker set and the first
/// argument is a string literal; otherwise nothing.
pub open spec fn key_of_event(e: CallEventV, fn_names: Seq<Seq<char>>) -> Option<Seq<char>> {
    match (e.callee, e.first_arg_str) {
        (Some(name), Some(arg)) => if fn_names.contains(name) {
            Some(arg)
        } else {
            None
        },
        _ => None,
    }
}

/// All keys contributed by a sequence of call events, in event order.
pub open spec fn keys_of_events(events: Seq<CallEventV>, fn_names: Seq<Seq<char>>) -> Seq<
    Seq<char>,
> {
    events.filter_map(|e: CallEventV| key_of_event(e, fn_names))
}

/// Whether a vector of strings holds a string with the view `s`.
pub fn contains_string(v: &Vec<String>, s: &String) -> (r: bool)
    ensures
        r == v.deep_view().contains(s@),
{
    let n = v.len();
    let mut i: usize = 0;
    while i < n
        invariant
            n == v.len(),
            i <= n,
            forall|j: int| 0 <= j < i ==> v.deep_view()[j] != s@,
        decreases n - i,
    {
        if v[i] == *s {
            assert(v.deep_view()[i as int] == s@);
            return true;
        }
        assert(v.deep_view()[i as int] != s@);
        i += 1;
    }
    false
}

/// Collects the string-literal keys of recognized marker calls while a
/// source file's call expressions are walked in document order.
pub struct FnKeyCollector {
    /// The keys collected so far, in discovery order.
    pub keys: Vec<String>,
    /// The identifiers recognized as translation markers.
    pub fn_names: Vec<String>,
}

impl FnKeyCollector {
    /// A collector with no keys yet.
    pub fn new(fn_names: Vec<String>) -> (r: FnKeyCollector)
        ensures
            r.keys.deep_view() == Seq::<Seq<char>>::empty(),
            r.fn_names == fn_names,
    {
        let r = FnKeyCollector { keys: Vec::new(), fn_names };
        proof {
            assert(r.keys.deep_view() =~= Seq::<Seq<char>>::empty());
        }
        r
    }

    /// Record the key of one call expression, if it carries one.
    pub fn visit_call_expr(&mut self, event: &CallEvent)
        ensures
            final(self).fn_names == old(self).fn_names,
            final(self).keys.deep_view() == (match key_of_event(
                event@,
                old(self).fn_names.deep_view(),
            ) {
                Some(k) => old(self).keys.deep_view().push(k),
                None => old(self).keys.deep_view(),
            }),
    {
        let ghost keys0 = self.keys.deep_view();
        if let Some(name) = &event.callee {
            if contains_string(&self.fn_names, name) {
                if let Some(arg) = &event.first_arg_str {
                    self.keys.push(arg.clone());
                    proof {
                        assert(self.keys.deep_view() =~= keys0.push(arg@));
                    }
                }
            }
        }
    }

    /// Record the keys of a whole file's call events, in document order.
    pub fn visit_events(&mut self, events: &Vec<CallEvent>)
        ensures
            final(self).fn_names == old(self).fn_names,
            final(self).keys.deep_view() == old(self).keys.deep_view() + keys_of_events(
                views_of_events(events@),
                old(self).fn_names.deep_view(),
            ),
    {
        let ghost keys0 = self.keys.deep_view();
        let ghost names = self.fn_names.deep_view();
        let n = events.len();
        let mut i: usize = 0;
        proof {
            assert(views_of_events(events@.take(0)).filter_map(
                |e: CallEventV| key_of_event(e, names),
            ) =~= Seq::<Seq<char>>::empty());
            assert(keys0 + Seq::<Seq<char>>::empty() =~= keys0);
        }
        while i < n
            invariant
                n == events.len(),
                i <= n,
                self.fn_names.deep_view() == names,
                self.fn_names == old(self).fn_names,
                self.keys.deep_view() == keys0 + keys_of_events(
                    views_of_events(events@.take(i as int)),
                    names,
                ),
            decreases n - i,
        {
            let ghost pre = views_of_events(events@.take(i as int));
            self.visit_call_expr(&events[i]);
            proof {
                let post = views_of_events(events@.take(i + 1 as int));
                assert(post.drop_last() =~= pre);
                assert(post.last() == events@[i as int]@);
                match key_of_event(events@[i as int]@, names) {
                    Some(k) => {
                        assert(keys_of_events(post, names) =~= keys_of_events(pre, names) + seq![k]);
                        assert(self.keys.deep_view() =~= keys0 + keys_of_events(post, names));
                    },
                    None => {
                        assert(keys_of_events(post, names) =~= keys_of_events(pre, names));
                    },
                }
            }
            i += 1;
        }
        proof {
            assert(events@.take(n as int) =~= events@);
        }
    }
}

// ------------------------------------------------------------------
// Fresh-map accumulation
// ------------------------------------------------------------------

/// The distinct keys of `keys`, each at its first occurrence, in order.
pub open spec fn first_occurrences(keys: Seq<Seq<char>>) -> Seq<Seq<char>>
    decreases keys.len(),
{
    if keys.len() == 0 {
        Seq::empty()
    } else {
        let rest = first_occurrences(keys.drop_last());
        if rest.contains(keys.last()) {
            rest
        } else {
            rest.push(keys.last())
        }
    }
}

/// The value a freshly scanned key receives: itself for the default
/// language, a `null` placeholder for every other language.
pub open spec fn fresh_value(k: Seq<char>, is_default: bool) -> Option<Seq<char>> {
    if is_default {
        Some(k)
    } else {
        None
    }
}

/// The fresh map accumulated from scanned keys: one entry per distinct
/// key, in first-discovery order.
pub open spec fn fresh_views(keys: Seq<Seq<char>>, is_default: bool) -> Seq<EntryV> {
    first_occurrences(keys).map_values(|k: Seq<char>| (k, fresh_value(k, is_default)))
}

/// `first_occurrences` never repeats a key and holds exactly the scanned keys.
pub proof fn lemma_first_occurrences(keys: Seq<Seq<char>>)
    ensures
        forall|i: int, j: int|
            0 <= i < j < first_occurrences(keys).len() ==> first_occurrences(keys)[i]
                != first_occurrences(keys)[j],
        forall|k: Seq<char>|
            first_occurrences(keys).contains(k) <==> #[trigger] keys.contains(k),
    decreases keys.len(),
{
    if keys.len() > 0 {
        lemma_first_occurrences(keys.drop_last());
        let rest = first_occurrences(keys.drop_last());
        let out = first_occurrences(keys);
        assert forall|k: Seq<char>| #[trigger] keys.contains(k) implies out.contains(k) by {
            let i = choose|i: int| 0 <= i < keys.len() && keys[i] == k;
            if i < keys.len() - 1 {
                assert(keys.drop_last()[i] == k);
                assert(keys.drop_last().contains(k));
                let j = choose|j: int| 0 <= j < rest.len() && rest[j] == k;
                assert(out[j] == k);
            } else {
                if rest.contains(k) {
                    let j = choose|j: int| 0 <= j < rest.len() && rest[j] == k;
                    assert(out[j] == k);
                } else {
                    assert(out[out.len() - 1] == k);
                }
            }
        }
        assert forall|k: Seq<char>| out.contains(k) implies #[trigger] keys.contains(k) by {
            let j = choose|j: int| 0 <= j < out.len() && out[j] == k;
            if j < rest.len() {
                assert(rest[j] == k);
                assert(rest.contains(k));
                assert(keys.drop_last().contains(k));
                let i = choose|i: int|
                    0 <= i < keys.drop_last().len() && keys.drop_last()[i] == k;
                assert(keys[i] == k);
            } else {
                assert(out[j] == keys.last());
                assert(keys[keys.len() - 1] == k);
            }
        }
    }
}

/// Build the fresh map for one language from the keys scanned in one
/// output directory, in first-discovery order: in the default language a
/// key's value is the key itself, in any other language a placeholder.
pub fn build_fresh_map(keys: &Vec<String>, is_default: bool) -> (m: TranslationMap)
    ensures
        m@ == fresh_views(keys.deep_view(), is_default),
        m.wf(),
{
    let ghost ks = keys.deep_view();
    let mut m = TranslationMap::new();
    let n = keys.len();
    let mut i: usize = 0;
    proof {
        assert(ks.take(0) =~= Seq::<Seq<char>>::empty());
        assert(fresh_views(ks.take(0), is_default) =~= Seq::<EntryV>::empty());
    }
    while i < n
        invariant
            n == keys.len(),
            ks == keys.deep_view(),
            i <= n,
            m.wf(),
            m@ == fresh_views(ks.take(i as int), is_default),
        decreases n - i,
    {
        let ghost pre = ks.take(i as int);
        let ghost post = ks.take(i + 1 as int);
        proof {
            assert(post.drop_last() =~= pre);
            assert(post.last() == ks[i as int]);
        }
        let k = &keys[i];
        assert(k@ == ks[i as int]);
        if !m.contains_key(k) {
            proof {
                // the key is new: first_occurrences grows by one entry
                assert(!first_occurrences(pre).contains(ks[i as int])) by {
                    if first_occurrences(pre).contains(ks[i as int]) {
                        let j = choose|j: int|
                            0 <= j < first_occurrences(pre).len() && first_occurrences(pre)[j]
                                == ks[i as int];
                        assert(m@[j].0 == ks[i as int]);
                        assert(has_key(m@, k@));
                    }
                };
            }
            let value = if is_default {
                Some(k.clone())
            } else {
                None
            };
            m.push_new(k.clone(), value);
            proof {
                assert(first_occurrences(post) == first_occurrences(pre).push(ks[i as int]));
                assert(m@ =~= fresh_views(post, is_default));
            }
        } else {
            proof {
                // the key was seen before: the map and the spec are unchanged
                let j = choose|j: int| 0 <= j < m@.len() && m@[j].0 == k@;
                assert(first_occurrences(pre)[j] == ks[i as int]);
                assert(first_occurrences(pre).contains(ks[i as int]));
                assert(first_occurrences(post) == first_occurrences(pre));
            }
        }
        i += 1;
    }
    proof {
        assert(ks.take(n as int) =~= ks);
    }
    m
}

// ------------------------------------------------------------------
// Two-way merge with the on-disk map
// ------------------------------------------------------------------

/// Appending one element to a sequence extends its filtered form by that
/// element exactly when the element satisfies the predicate.
pub proof fn lemma_filter_push<A>(s: Seq<A>, pred: spec_fn(A) -> bool, e: A)
    ensures
        pred(e) ==> s.push(e).filter(pred) == s.filter(pred).push(e),
        !pred(e) ==> s.push(e).filter(pred) == s.filter(pred),
{
    reveal(Seq::filter);
    assert(s.push(e).drop_last() =~= s);
    assert(s.push(e).last() == e);
}

/// How one freshly scanned entry is reconciled with the prior on-disk
/// map: a non-null prior value always wins; otherwise the scanned entry
/// stands unchanged.
pub open spec fn merge_entry(e: EntryV, prior: Seq<EntryV>) -> EntryV {
    if has_key(prior, e.0) && value_of(prior, e.0) is Some {
        (e.0, value_of(prior, e.0))
    } else {
        e
    }
}

/// The two-way reconciliation of collect: scanned entries keep their
/// positions, non-null prior values overwrite scanned placeholders, and
/// keys present only in the prior map are appended at the end with their
/// old values, null or not.
pub open spec fn merge_views(fresh: Seq<EntryV>, prior: Seq<EntryV>) -> Seq<EntryV> {
    fresh.map_values(|e: EntryV| merge_entry(e, prior)) + prior.filter(
        |e: EntryV| !has_key(fresh, e.0),
    )
}

/// Merge the freshly scanned map with the map read from disk.
pub fn merge_old(fresh: &TranslationMap, prior: &TranslationMap) -> (m: TranslationMap)
    requires
        fresh.wf(),
        prior.wf(),
    ensures
        m@ == merge_views(fresh@, prior@),
        m.wf(),
{
    let ghost fv = fresh@;
    let ghost pv = prior@;
    let ghost mapper = |e: EntryV| merge_entry(e, pv);
    let ghost pred = |e: EntryV| !has_key(fv, e.0);
    let mut m = TranslationMap::new();
    let n = fresh.len();
    let mut i: usize = 0;
    proof {
        assert(m@ =~= fv.take(0).map_values(mapper));
    }
    while i < n
        invariant
            n == fv.len(),
            i <= n,
            fv == fresh@,
            pv == prior@,
            fresh.wf(),
            prior.wf(),
            m.wf(),
            mapper == (|e: EntryV| merge_entry(e, pv)),
            m@ == fv.take(i as int).map_values(mapper),
        decreases n - i,
    {
        let (k, v) = fresh.entry_at(i);
        assert(k@ == fv[i as int].0);
        proof {
            assert forall|j: int| 0 <= j < i implies (#[trigger] m@[j]).0 == fv[j].0 by {
                assert(m@[j] == mapper(fv.take(i as int)[j]));
            }
            assert(!has_key(m@, k@)) by {
                if has_key(m@, k@) {
                    let j = choose|j: int| 0 <= j < m@.len() && m@[j].0 == k@;
                    assert(fv[j].0 == fv[i as int].0);
                }
            }
        }
        let prior_value = prior.get(&k);
        let merged_value = match prior_value {
            Some(Some(x)) => Some(x),
            _ => v,
        };
        proof {
            assert(crate::tmap::entry_v((k, merged_value)) == mapper(fv[i as int]));
        }
        let ghost m_pre = m@;
        m.push_new(k, merged_value);
        proof {
            assert(m@ =~= fv.take(i + 1 as int).map_values(mapper));
        }
        i += 1;
    }
    proof {
        assert(fv.take(n as int) =~= fv);
    }
    let ghost mapped = fv.map_values(mapper);
    let np = prior.len();
    let mut j: usize = 0;
    proof {
        assert(pv.take(0) =~= Seq::<EntryV>::empty());
        assert(pv.take(0).filter(pred) =~= Seq::<EntryV>::empty()) by {
            reveal(Seq::filter);
        }
        assert(m@ =~= mapped + pv.take(0).filter(pred));
    }
    while j < np
        invariant
            np == pv.len(),
            j <= np,
            fv == fresh@,
            pv == prior@,
            fresh.wf(),
            prior.wf(),
            m.wf(),
            mapper == (|e: EntryV| merge_entry(e, pv)),
            pred == (|e: EntryV| !has_key(fv, e.0)),
            mapped == fv.map_values(mapper),
            m@ == mapped + pv.take(j as int).filter(pred),
        decreases np - j,
    {
        let ghost pre = pv.take(j as int);
        let ghost post = pv.take(j + 1 as int);
        proof {
            assert(post.drop_last() =~= pre);
            assert(post =~= pre.push(pv[j as int]));
            lemma_filter_push(pre, pred, pv[j as int]);
        }
        let (k, v) = prior.entry_at(j);
        assert(k@ == pv[j as int].0);
        if !fresh.contains_key(&k) {
            proof {
                assert(pred(pv[j as int]));
                assert(!has_key(m@, k@)) by {
                    if has_key(m@, k@) {
                        let idx = choose|idx: int| 0 <= idx < m@.len() && m@[idx].0 == k@;
                        if idx < mapped.len() {
                            assert(m@[idx] == mapper(fv[idx]));
                            assert(fv[idx].0 == k@);
                            assert(has_key(fv, k@));
                        } else {
                            let fe = m@[idx];
                            assert(pre.filter(pred)[idx - mapped.len()] == fe);
                            assert(pre.filter(pred).contains(fe));
                            pre.lemma_filter_contains_rev(pred, fe);
                            let l = choose|l: int| 0 <= l < pre.len() && pre[l] == fe;
                            assert(pv[l].0 == pv[j as int].0);
                        }
                    }
                }
                assert(crate::tmap::entry_v((k, v)) == pv[j as int]);
            }
            m.push_new(k, v);
            proof {
                assert(m@ =~= mapped + post.filter(pred));
            }
        } else {
            proof {
                assert(!pred(pv[j as int]));
                assert(m@ =~= mapped + post.filter(pred));
            }
        }
        j += 1;
    }
    proof {
        assert(pv.take(np as int) =~= pv);
    }
    m
}

// ------------------------------------------------------------------
// Laws of the merge
// ------------------------------------------------------------------

/// Filtering keeps a sequence unchanged when every element satisfies the
/// predicate.
pub proof fn lemma_filter_identity<A>(s: Seq<A>, pred: spec_fn(A) -> bool)
    requires
        forall|i: int| 0 <= i < s.len() ==> pred(#[trigger] s[i]),
    ensures
        s.filter(pred) == s,
    decreases s.len(),
{
    reveal(Seq::filter);
    if s.len() > 0 {
        lemma_filter_identity(s.drop_last(), pred);
        assert(s.drop_last().push(s.last()) =~= s);
    }
}

/// Filtering drops everything when no element satisfies the predicate.
pub proof fn lemma_filter_empty<A>(s: Seq<A>, pred: spec_fn(A) -> bool)
    requires
        forall|i: int| 0 <= i < s.len() ==> !pred(#[trigger] s[i]),
    ensures
        s.filter(pred) == Seq::<A>::empty(),
    decreases s.len(),
{
    reveal(Seq::filter);
    if s.len() > 0 {
        lemma_filter_empty(s.drop_last(), pred);
    }
}

/// Filtering a well-formed map view leaves it well-formed.
pub proof fn lemma_filter_wf(m: Seq<EntryV>, pred: spec_fn(EntryV) -> bool)
    requires
        map_wf(m),
    ensures
        map_wf(m.filter(pred)),
    decreases m.len(),
{
    reveal(Seq::filter);
    if m.len() > 0 {
        let dl = m.drop_last();
        assert(map_wf(dl)) by {
            assert forall|i: int, j: int| 0 <= i < j < dl.len() implies (#[trigger] dl[i]).0 != (
            #[trigger] dl[j]).0 by {
                assert(m[i].0 != m[j].0);
            }
        }
        lemma_filter_wf(dl, pred);
        if pred(m.last()) {
            let f = dl.filter(pred);
            assert forall|i: int, j: int|
                0 <= i < j < m.filter(pred).len() implies (#[trigger] m.filter(pred)[i]).0 != (
            #[trigger] m.filter(pred)[j]).0 by {
                if j < f.len() {
                } else {
                    assert(m.filter(pred)[j] == m.last());
                    let e = f[i];
                    assert(f.contains(e));
                    dl.lemma_filter_contains_rev(pred, e);
                    let l = choose|l: int| 0 <= l < dl.len() && dl[l] == e;
                    assert(m[l].0 != m[m.len() - 1].0);
                }
            }
        }
    }
}

/// The merge is well-formed, its keys are the union of both key sets, and
/// each key's value follows the reconciliation rule: for scanned keys a
/// non-null prior value wins over the scanned value, and keys only in the
/// prior map keep their prior value.
pub proof fn lemma_merge_views_wf(fresh: Seq<EntryV>, prior: Seq<EntryV>)
    requires
        map_wf(fresh),
        map_wf(prior),
    ensures
        map_wf(merge_views(fresh, prior)),
        forall|k: Seq<char>|
            #[trigger] has_key(merge_views(fresh, prior), k) <==> (has_key(fresh, k) || has_key(
                prior,
                k,
            )),
        forall|k: Seq<char>|
            has_key(fresh, k) ==> #[trigger] value_of(merge_views(fresh, prior), k) == (if has_key(
                prior,
                k,
            ) && value_of(prior, k) is Some {
                value_of(prior, k)
            } else {
                value_of(fresh, k)
            }),
        forall|k: Seq<char>|
            !has_key(fresh, k) && has_key(prior, k) ==> #[trigger] value_of(
                merge_views(fresh, prior),
                k,
            ) == value_of(prior, k),
{
    let mapper = |e: EntryV| merge_entry(e, prior);
    let pred = |e: EntryV| !has_key(fresh, e.0);
    let mapped = fresh.map_values(mapper);
    let filtered = prior.filter(pred);
    let m = merge_views(fresh, prior);
    assert(m == mapped + filtered);
    assert forall|i: int| 0 <= i < mapped.len() implies (#[trigger] mapped[i]).0 == fresh[i].0 by {
        assert(mapped[i] == mapper(fresh[i]));
    }
    lemma_filter_wf(prior, pred);
    // each filtered entry sits in the prior map and escapes the fresh keys
    assert forall|i: int| 0 <= i < filtered.len() implies !has_key(
        fresh,
        (#[trigger] filtered[i]).0,
    ) && has_key(prior, filtered[i].0) && value_of(prior, filtered[i].0) == filtered[i].1 by {
        prior.lemma_filter_pred(pred, i);
        assert(filtered.contains(filtered[i]));
        prior.lemma_filter_contains_rev(pred, filtered[i]);
        let l = choose|l: int| 0 <= l < prior.len() && prior[l] == filtered[i];
        crate::tmap::lemma_value_at_index(prior, l);
    }
    assert(map_wf(m)) by {
        assert forall|i: int, j: int| 0 <= i < j < m.len() implies (#[trigger] m[i]).0 != (
        #[trigger] m[j]).0 by {
            if j < mapped.len() {
                assert(fresh[i].0 != fresh[j].0);
            } else if i < mapped.len() {
                assert(m[i].0 == fresh[i].0);
                assert(has_key(fresh, fresh[i].0));
                assert(m[j] == filtered[j - mapped.len()]);
            } else {
                assert(m[i] == filtered[i - mapped.len()]);
                assert(m[j] == filtered[j - mapped.len()]);
                assert(map_wf(filtered));
            }
        }
    }
    assert forall|k: Seq<char>| #[trigger] has_key(m, k) implies (has_key(fresh, k) || has_key(
        prior,
        k,
    )) by {
        let i = choose|i: int| 0 <= i < m.len() && m[i].0 == k;
        if i < mapped.len() {
            assert(fresh[i].0 == k);
        } else {
            assert(has_key(prior, filtered[i - mapped.len()].0));
        }
    }
    assert forall|k: Seq<char>| has_key(fresh, k) || has_key(prior, k) implies #[trigger] has_key(
        m,
        k,
    ) by {
        if has_key(fresh, k) {
            let i = choose|i: int| 0 <= i < fresh.len() && fresh[i].0 == k;
            assert(m[i].0 == k);
        } else {
            let l = choose|l: int| 0 <= l < prior.len() && prior[l].0 == k;
            assert(pred(prior[l]));
            prior.lemma_filter_contains(pred, l);
            let f = choose|f: int| 0 <= f < filtered.len() && filtered[f] == prior[l];
            assert(m[mapped.len() + f].0 == k);
        }
    }
    assert forall|k: Seq<char>| has_key(fresh, k) implies #[trigger] value_of(m, k) == (if has_key(
        prior,
        k,
    ) && value_of(prior, k) is Some {
        value_of(prior, k)
    } else {
        value_of(fresh, k)
    }) by {
        let i = choose|i: int| 0 <= i < fresh.len() && fresh[i].0 == k;
        crate::tmap::lemma_value_at_index(fresh, i);
        assert(m[i] == mapper(fresh[i]));
        crate::tmap::lemma_value_at_index(m, i);
    }
    assert forall|k: Seq<char>| !has_key(fresh, k) && has_key(prior, k) implies #[trigger] value_of(
        m,
        k,
    ) == value_of(prior, k) by {
        let l = choose|l: int| 0 <= l < prior.len() && prior[l].0 == k;
        assert(pred(prior[l]));
        prior.lemma_filter_contains(pred, l);
        let f = choose|f: int| 0 <= f < filtered.len() && filtered[f] == prior[l];
        assert(m[mapped.len() + f] == prior[l]);
        crate::tmap::lemma_value_at_index(prior, l);
        crate::tmap::lemma_value_at_index(m, mapped.len() + f);
    }
}

/// Non-destructiveness: a key file's existing non-null value for a key is
/// never replaced by the collect merge, regardless of what was scanned.
pub proof fn lemma_merge_non_destructive(
    fresh: Seq<EntryV>,
    prior: Seq<EntryV>,
    k: Seq<char>,
    v: Seq<char>,
)
    requires
        map_wf(fresh),
        map_wf(prior),
        has_key(prior, k),
        value_of(prior, k) == Some(v),
    ensures
        has_key(merge_views(fresh, prior), k),
        value_of(merge_views(fresh, prior), k) == Some(v),
{
    lemma_merge_views_wf(fresh, prior);
}

/// Default self-fill: a key discovered in the default language ends up
/// with itself as its value, as long as the prior file did not carry a
/// different non-null value for it.
pub proof fn lemma_merge_default_self_fill(fresh: Seq<EntryV>, prior: Seq<EntryV>, k: Seq<char>)
    requires
        map_wf(fresh),
        map_wf(prior),
        has_key(fresh, k),
        value_of(fresh, k) == Some(k),
        has_key(prior, k) ==> (value_of(prior, k) is None || value_of(prior, k) == Some(k)),
    ensures
        has_key(merge_views(fresh, prior), k),
        value_of(merge_views(fresh, prior), k) == Some(k),
{
    lemma_merge_views_wf(fresh, prior);
}

/// Idempotence: merging the same scan once more into the already merged
/// map changes nothing, so a second collect run over unchanged sources
/// rewrites each file with identical content.
pub proof fn lemma_merge_idempotent(fresh: Seq<EntryV>, prior: Seq<EntryV>)
    requires
        map_wf(fresh),
        map_wf(prior),
    ensures
        merge_views(fresh, merge_views(fresh, prior)) == merge_views(fresh, prior),
{
    let m = merge_views(fresh, prior);
    lemma_merge_views_wf(fresh, prior);
    let mapper1 = |e: EntryV| merge_entry(e, prior);
    let mapper2 = |e: EntryV| merge_entry(e, m);
    let pred = |e: EntryV| !has_key(fresh, e.0);
    let mapped = fresh.map_values(mapper1);
    let filtered = prior.filter(pred);
    assert forall|i: int| 0 <= i < fresh.len() implies #[trigger] fresh.map_values(mapper2)[i]
        == mapped[i] by {
        let e = fresh[i];
        crate::tmap::lemma_value_at_index(fresh, i);
        assert(fresh.map_values(mapper2)[i] == mapper2(e));
        assert(mapped[i] == mapper1(e));
        assert(value_of(fresh, e.0) == e.1);
        assert(has_key(m, e.0));
        if has_key(prior, e.0) && value_of(prior, e.0) is Some {
            assert(value_of(m, e.0) == value_of(prior, e.0));
            assert(mapper2(e) == (e.0, value_of(prior, e.0)));
        } else {
            assert(value_of(m, e.0) == e.1);
            if e.1 is Some {
                assert(mapper2(e) == (e.0, e.1));
                assert((e.0, e.1) == e);
            } else {
                assert(mapper2(e) == e);
            }
            assert(mapper1(e) == e);
        }
    }
    assert(fresh.map_values(mapper2) =~= mapped);
    assert forall|i: int| 0 <= i < mapped.len() implies !pred(#[trigger] mapped[i]) by {
        assert(mapped[i] == mapper1(fresh[i]));
        assert(mapped[i].0 == fresh[i].0);
        assert(has_key(fresh, fresh[i].0));
    }
    lemma_filter_empty(mapped, pred);
    assert forall|i: int| 0 <= i < filtered.len() implies pred(#[trigger] filtered[i]) by {
        prior.lemma_filter_pred(pred, i);
    }
    lemma_filter_identity(filtered, pred);
    Seq::filter_distributes_over_add(mapped, filtered, pred);
    assert(m.filter(pred) == mapped.filter(pred) + filtered.filter(pred));
    assert(m.filter(pred) =~= filtered);
    assert(merge_views(fresh, m) =~= m);
}

// ------------------------------------------------------------------
// Per-output-directory scanning units
// ------------------------------------------------------------------

/// The keys one scanned file contributes to one output directory.
pub struct DirScan {
    /// The output directory owning the per-language files.
    pub output_dir: String,
    /// The keys found in the file, in document order.
    pub keys: Vec<String>,
}

impl View for DirScan {
    type V = (Seq<char>, Seq<Seq<char>>);

    open spec fn view(&self) -> (Seq<char>, Seq<Seq<char>>) {
        (self.output_dir@, self.keys.deep_view())
    }
}

/// The views of a sequence of scans.
pub open spec fn scan_views(s: Seq<DirScan>) -> Seq<(Seq<char>, Seq<Seq<char>>)> {
    s.map_values(|d: DirScan| d@)
}

/// The output directories of the scans, in scan order.
pub open spec fn dirs_of(s: Seq<(Seq<char>, Seq<Seq<char>>)>) -> Seq<Seq<char>> {
    s.map_values(|d: (Seq<char>, Seq<Seq<char>>)| d.0)
}

/// All keys scanned for one output directory, concatenated in scan
/// order: the scope of both the fresh maps of collect and the used set
/// of clean is one output directory, never the whole tree.
pub open spec fn keys_for_dir(s: Seq<(Seq<char>, Seq<Seq<char>>)>, dir: Seq<char>) -> Seq<
    Seq<char>,
>
    decreases s.len(),
{
    if s.len() == 0 {
        Seq::empty()
    } else {
        keys_for_dir(s.drop_last(), dir) + (if s.last().0 == dir {
            s.last().1
        } else {
            Seq::empty()
        })
    }
}

/// The distinct output directories of the scans, in first-appearance
/// order.
pub fn distinct_dirs(scans: &Vec<DirScan>) -> (r: Vec<String>)
    ensures
        r.deep_view() == first_occurrences(dirs_of(scan_views(scans@))),
{
    let ghost dirs = dirs_of(scan_views(scans@));
    let mut r: Vec<String> = Vec::new();
    let n = scans.len();
    let mut i: usize = 0;
    proof {
        assert(dirs.take(0) =~= Seq::<Seq<char>>::empty());
        assert(r.deep_view() =~= first_occurrences(dirs.take(0)));
    }
    while i < n
        invariant
            n == scans@.len(),
            dirs == dirs_of(scan_views(scans@)),
            dirs.len() == n,
            i <= n,
            r.deep_view() == first_occurrences(dirs.take(i as int)),
        decreases n - i,
    {
        proof {
            assert(dirs[i as int] == scans@[i as int].output_dir@);
            assert(dirs.take(i + 1 as int).drop_last() =~= dirs.take(i as int));
            assert(dirs.take(i + 1 as int).last() == dirs[i as int]);
        }
        let d = &scans[i].output_dir;
        if !contains_string(&r, d) {
            let ghost r0 = r.deep_view();
            r.push(d.clone());
            proof {
                assert(r.deep_view() =~= r0.push(d@));
            }
        }
        i += 1;
    }
    proof {
        assert(dirs.take(n as int) =~= dirs);
    }
    r
}

/// All keys scanned for `dir`, concatenated in scan order.
pub fn keys_for_output_dir(scans: &Vec<DirScan>, dir: &String) -> (r: Vec<String>)
    ensures
        r.deep_view() == keys_for_dir(scan_views(scans@), dir@),
{
    let ghost sv = scan_views(scans@);
    let mut r: Vec<String> = Vec::new();
    let n = scans.len();
    let mut i: usize = 0;
    proof {
        assert(sv.take(0) =~= Seq::<(Seq<char>, Seq<Seq<char>>)>::empty());
        assert(r.deep_view() =~= keys_for_dir(sv.take(0), dir@));
    }
    while i < n
        invariant
            n == scans@.len(),
            sv == scan_views(scans@),
            sv.len() == n,
            i <= n,
            r.deep_view() == keys_for_dir(sv.take(i as int), dir@),
        decreases n - i,
    {
        let ghost pre = sv.take(i as int);
        let ghost post = sv.take(i + 1 as int);
        proof {
            assert(post.drop_last() =~= pre);
            assert(post.last() == sv[i as int]);
            assert(sv[i as int] == scans@[i as int]@);
        }
        if scans[i].output_dir == *dir {
            proof {
                assert(scans@[i as int].output_dir@ == dir@);
            }
            let ghost r0 = r.deep_view();
            let kn = scans[i].keys.len();
            let mut j: usize = 0;
            while j < kn
                invariant
                    i < n,
                    n == scans@.len(),
                    kn == scans@[i as int].keys.deep_view().len(),
                    j <= kn,
                    r.deep_view() == r0 + scans@[i as int].keys.deep_view().take(j as int),
                decreases kn - j,
            {
                let ghost prev = r.deep_view();
                let ghost kd = scans@[i as int].keys.deep_view();
                r.push(scans[i].keys[j].clone());
                proof {
                    assert(r.deep_view() =~= prev.push(kd[j as int]));
                    assert(kd.take(j + 1 as int) =~= kd.take(j as int).push(kd[j as int]));
                    assert((r0 + kd.take(j as int)).push(kd[j as int]) =~= r0 + kd.take(
                        j + 1 as int,
                    ));
                }
                j += 1;
            }
            proof {
                assert(scans@[i as int].keys.deep_view().take(kn as int) =~= scans@[i as int].keys.deep_view());
                assert(r.deep_view() =~= keys_for_dir(post, dir@));
            }
        } else {
            proof {
                assert(scans@[i as int].output_dir@ != dir@);
                assert(r.deep_view() + Seq::<Seq<char>>::empty() =~= r.deep_view());
            }
        }
        i += 1;
    }
    proof {
        assert(sv.take(n as int) =~= sv);
    }
    r
}

// ------------------------------------------------------------------
// Preparing one key-file write
// ------------------------------------------------------------------

/// The prior map an existing file contributes to the merge: its parsed
/// entries, or nothing at all when the file is absent or not a JSON
/// object of the expected shape (the merge then keeps the scan result).
pub open spec fn prior_views(old_content: Option<Seq<char>>) -> Seq<EntryV> {
    match old_content {
        Some(text) => match parse_map(text) {
            Some(m) => m,
            None => Seq::empty(),
        },
        None => Seq::empty(),
    }
}

/// The text an existing file holds, as a view.
pub open spec fn content_view(old_content: Option<&String>) -> Option<Seq<char>> {
    match old_content {
        Some(t) => Some(t@),
        None => None,
    }
}

/// Merge the fresh map of one `(output directory, language)` pair with
/// the file already on disk and serialize the result.  The flag says
/// whether the file must be written: only when the new text differs
/// from what the file already holds.
pub fn collect_file_output(fresh: &TranslationMap, old_content: Option<&String>) -> (r: (
    String,
    bool,
))
    requires
        fresh.wf(),
    ensures
        r.0@ == render_map(merge_views(fresh@, prior_views(content_view(old_content)))),
        r.1 == (match content_view(old_content) {
            Some(t) => t != r.0@,
            None => true,
        }),
{
    let merged = match old_content {
        Some(text) => match crate::json::json_to_map(text) {
            Some(prior) => merge_old(fresh, &prior),
            None => merge_old(fresh, &TranslationMap::new()),
        },
        None => merge_old(fresh, &TranslationMap::new()),
    };
    let json = map_to_json(&merged);
    let write_needed = match old_content {
        Some(t) => !(*t == json),
        None => true,
    };
    (json, write_needed)
}

/// The fresh map holds exactly the scanned keys, each once, valued by
/// the language rule.
pub proof fn lemma_fresh_views_wf(keys: Seq<Seq<char>>, is_default: bool)
    ensures
        map_wf(fresh_views(keys, is_default)),
        forall|k: Seq<char>|
            #[trigger] has_key(fresh_views(keys, is_default), k) <==> keys.contains(k),
        forall|k: Seq<char>|
            keys.contains(k) ==> #[trigger] value_of(fresh_views(keys, is_default), k)
                == fresh_value(k, is_default),
{
    lemma_first_occurrences(keys);
    let fo = first_occurrences(keys);
    let fresh = fresh_views(keys, is_default);
    assert forall|i: int| 0 <= i < fresh.len() implies #[trigger] fresh[i] == (
        fo[i],
        fresh_value(fo[i], is_default),
    ) by {}
    assert(map_wf(fresh)) by {
        assert forall|p: int, q: int| 0 <= p < q < fresh.len() implies (#[trigger] fresh[p]).0 != (
        #[trigger] fresh[q]).0 by {
            assert(fo[p] != fo[q]);
        }
    }
    assert forall|k: Seq<char>| #[trigger] has_key(fresh, k) implies keys.contains(k) by {
        let i = choose|i: int| 0 <= i < fresh.len() && fresh[i].0 == k;
        assert(fo[i] == k);
        assert(fo.contains(k));
    }
    assert forall|k: Seq<char>| keys.contains(k) implies #[trigger] has_key(fresh, k)
        && value_of(fresh, k) == fresh_value(k, is_default) by {
        assert(fo.contains(k));
        let i = choose|i: int| 0 <= i < fo.len() && fo[i] == k;
        assert(fresh[i].0 == k);
        assert(has_key(fresh, k));
        crate::tmap::lemma_value_at_index(fresh, i);
    }
    assert forall|k: Seq<char>| keys.contains(k) implies #[trigger] value_of(fresh, k)
        == fresh_value(k, is_default) by {
        assert(has_key(fresh, k));
    }
}

/// Collect never loses a key: everything the scan discovered is present
/// in the merged file, whatever was on disk before.
pub proof fn lemma_collect_covers_scan(
    keys: Seq<Seq<char>>,
    is_default: bool,
    prior: Seq<EntryV>,
    k: Seq<char>,
)
    requires
        map_wf(prior),
        keys.contains(k),
    ensures
        has_key(merge_views(fresh_views(keys, is_default), prior), k),
{
    lemma_fresh_views_wf(keys, is_default);
    lemma_merge_views_wf(fresh_views(keys, is_default), prior);
}

/// Idempotence, byte for byte: the text collect writes for a file,
/// read back by a second collect run over unchanged sources, parses to
/// the same map, merges to itself, and renders to the identical text,
/// so the second run rewrites nothing.
#[verifier::rlimit(100)]
pub proof fn lemma_collect_idempotent_bytes(fresh: Seq<EntryV>, prior: Seq<EntryV>)
    requires
        map_wf(fresh),
        map_wf(prior),
    ensures
        prior_views(Some(render_map(merge_views(fresh, prior)))) == merge_views(fresh, prior),
        render_map(
            merge_views(fresh, prior_views(Some(render_map(merge_views(fresh, prior))))),
        ) == render_map(merge_views(fresh, prior)),
{
    lemma_merge_views_wf(fresh, prior);
    crate::json::lemma_parse_render_round_trip(merge_views(fresh, prior));
    lemma_merge_idempotent(fresh, prior);
}

} // verus!
