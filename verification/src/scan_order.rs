//! The deterministic scanning order: workspaces and files are visited
//! in case-insensitive lexicographic path order, so first-discovery
//! order, and with it every merge decision, is the same on every run.

use vstd::prelude::*;

use crate::tgen::{lemma_seq_lt_transitive, lemma_seq_lt_trichotomy, seq_lt};

verus! {

/// What lower-casing a text yields.
pub uninterp spec fn lower_of(s: Seq<char>) -> Seq<char>;

/// Relies on `str::to_lowercase`: the Unicode lowercase form of the
/// text, a function of its characters alone.
#[verifier::external_body]
fn to_lowercase(s: &String) -> (r: String)
    ensures
        r@ == lower_of(s@),
{
    s.to_lowercase()
}

/// Whether `a` sorts at or before `b` in scanning order: its lowercase
/// form does not come strictly later.
pub open spec fn ci_before(a: Seq<char>, b: Seq<char>) -> bool {
    !seq_lt(lower_of(b), lower_of(a))
}

/// Inserting anywhere adds one occurrence to the multiset.
proof fn lemma_insert_to_multiset<A>(s: Seq<A>, i: int, x: A)
    requires
        0 <= i <= s.len(),
    ensures
        s.insert(i, x).to_multiset() == s.to_multiset().insert(x),
{
    let t = s.insert(i, x);
    t.to_multiset_ensures();
    s.to_multiset_ensures();
    assert(t.remove(i) =~= s);
    assert(t[i] == x);
    assert(t.remove(i).to_multiset() =~= t.to_multiset().remove(x));
    assert(t.contains(x));
    assert(t.to_multiset().count(x) > 0);
    assert(t.to_multiset() =~= s.to_multiset().insert(x)) by {
        assert(s.to_multiset() == t.to_multiset().remove(x));
    }
}

/// Sort paths into the scanning order: ascending by lowercase form.
pub fn sort_paths(paths: &Vec<String>) -> (r: Vec<String>)
    ensures
        r@.to_multiset() == paths@.to_multiset(),
        forall|i: int, j: int| 0 <= i < j < r@.len() ==> ci_before(r@[i]@, r@[j]@),
{
    let ghost pv = paths@;
    // each entry carries its lowercase key
    let mut sorted: Vec<(String, String)> = Vec::new();
    let n = paths.len();
    let mut i: usize = 0;
    proof {
        assert(sorted@.map_values(|p: (String, String)| p.0) =~= Seq::<String>::empty());
        assert(Seq::<String>::empty().to_multiset() =~= pv.take(0).to_multiset()) by {
            pv.take(0).to_multiset_ensures();
            Seq::<String>::empty().to_multiset_ensures();
            assert(pv.take(0) =~= Seq::<String>::empty());
        }
    }
    while i < n
        invariant
            i <= n,
            pv == paths@,
            n == pv.len(),
            sorted@.map_values(|p: (String, String)| p.0).to_multiset() == pv.take(
                i as int,
            ).to_multiset(),
            forall|k: int| 0 <= k < sorted@.len() ==> (#[trigger] sorted@[k]).1@ == lower_of(
                sorted@[k].0@,
            ),
            forall|p: int, q: int|
                0 <= p < q < sorted@.len() ==> !seq_lt(
                    (#[trigger] sorted@[q]).1@,
                    (#[trigger] sorted@[p]).1@,
                ),
        decreases n - i,
    {
        let path = paths[i].clone();
        let key = to_lowercase(&path);
        let m = sorted.len();
        let mut idx: usize = 0;
        while idx < m
            invariant
                idx <= m,
                m == sorted@.len(),
                key@ == lower_of(path@),
                forall|k: int| 0 <= k < idx ==> !seq_lt(key@, (#[trigger] sorted@[k]).1@),
            ensures
                idx <= m,
                forall|k: int| 0 <= k < idx ==> !seq_lt(key@, (#[trigger] sorted@[k]).1@),
                idx < m ==> seq_lt(key@, sorted@[idx as int].1@),
            decreases m - idx,
        {
            if crate::tgen::string_lt(&key, &sorted[idx].1) {
                break ;
            }
            proof {
                assert(!seq_lt(key@, sorted@[idx as int].1@));
            }
            idx += 1;
        }
        let ghost s0 = sorted@;
        let ghost firsts0 = s0.map_values(|p: (String, String)| p.0);
        sorted.insert(idx, (path, key));
        proof {
            assert(sorted@ =~= s0.insert(idx as int, (path, key)));
            // the keys stay linked and sorted
            assert forall|p: int, q: int|
                0 <= p < q < sorted@.len() implies !seq_lt(
                (#[trigger] sorted@[q]).1@,
                (#[trigger] sorted@[p]).1@,
            ) by {
                let a = (if p < idx {
                    s0[p]
                } else if p == idx {
                    (path, key)
                } else {
                    s0[p - 1]
                });
                assert(sorted@[p] == a);
                let b = (if q < idx {
                    s0[q]
                } else if q == idx {
                    (path, key)
                } else {
                    s0[q - 1]
                });
                assert(sorted@[q] == b);
                if p == idx && q > idx {
                    // a later entry cannot be smaller than the key: the
                    // entry right after the insertion point is already
                    // larger, and the tail was sorted
                    assert(idx < m);
                    assert(seq_lt(key@, s0[idx as int].1@));
                    if seq_lt(b.1@, key@) {
                        lemma_seq_lt_transitive(s0[q - 1].1@, key@, s0[idx as int].1@);
                        assert(q - 1 >= idx);
                        if q - 1 > idx {
                            assert(!seq_lt(s0[q - 1].1@, s0[idx as int].1@));
                        } else {
                            lemma_seq_lt_trichotomy(s0[idx as int].1@, s0[idx as int].1@);
                        }
                    }
                }
            }
            // one more occurrence in the multiset
            assert(sorted@.map_values(|p: (String, String)| p.0) =~= firsts0.insert(
                idx as int,
                path,
            ));
            lemma_insert_to_multiset(firsts0, idx as int, path);
            assert(pv.take(i + 1 as int).drop_last() =~= pv.take(i as int));
            pv.take(i + 1 as int).to_multiset_ensures();
            pv.take(i as int).to_multiset_ensures();
            assert(pv.take(i + 1 as int) =~= pv.take(i as int).push(pv[i as int]));
            assert(pv.take(i + 1 as int).to_multiset() =~= pv.take(i as int).to_multiset().insert(
                pv[i as int],
            ));
            assert(path == pv[i as int]);
            assert(sorted@.map_values(|p: (String, String)| p.0).to_multiset() =~= pv.take(
                i + 1 as int,
            ).to_multiset());
        }
        i += 1;
    }
    proof {
        assert(pv.take(n as int) =~= pv);
    }
    // strip the keys off
    let m = sorted.len();
    let mut r: Vec<String> = Vec::new();
    let mut k: usize = 0;
    while k < m
        invariant
            k <= m,
            m == sorted@.len(),
            r@.len() == k,
            forall|p: int| 0 <= p < k ==> #[trigger] r@[p] == sorted@[p].0,
        decreases m - k,
    {
        r.push(sorted[k].0.clone());
        k += 1;
    }
    proof {
        assert(r@ =~= sorted@.map_values(|p: (String, String)| p.0));
        assert forall|p: int, q: int| 0 <= p < q < r@.len() implies ci_before(
            (#[trigger] r@[p])@,
            (#[trigger] r@[q])@,
        ) by {
            assert(sorted@[p].1@ == lower_of(sorted@[p].0@));
            assert(sorted@[q].1@ == lower_of(sorted@[q].0@));
        }
    }
    r
}

} // verus!
