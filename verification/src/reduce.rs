//! Vocabulary reduction: minimum-count filtering and top-N truncation.
//!
//! [`filter_counts`] first drops every entry whose count falls below
//! `min_count`, then, if more than `max_vocab` entries remain, keeps exactly
//! `max_vocab` entries of highest count. The tie break at the cutoff is
//! deliberately unspecified; [`is_reduction`] states everything that is.

use vstd::prelude::*;

use vstd::set_lib::lemma_len_subset;

use crate::freq::Entry;
use crate::freq::FrequencyMap;
use crate::freq::distinct_keys;
use crate::freq::entries_view;
use crate::freq::has_key;
use crate::freq::lemma_key_lookup;
use crate::freq::lemma_map_of_len;
use crate::freq::map_of;
use crate::tokens::valid_token;

verus! {

/// The map restricted to entries whose count reaches `min_count`.
pub open spec fn filtered(m: Map<Seq<char>, u64>, min_count: Option<u64>) -> Map<Seq<char>, u64> {
    match min_count {
        Option::None => m,
        Option::Some(n) => Map::new(
            |k: Seq<char>| m.dom().contains(k) && m[k] >= n,
            |k: Seq<char>| m[k],
        ),
    }
}

/// `r` keeps `m` unchanged if it fits in `max_vocab`, and otherwise keeps
/// exactly `max_vocab` entries of `m` whose counts are at least every
/// dropped entry's count.
pub open spec fn is_truncation(
    r: Map<Seq<char>, u64>,
    m: Map<Seq<char>, u64>,
    max_vocab: Option<usize>,
) -> bool {
    match max_vocab {
        Option::None => r == m,
        Option::Some(cap) => if m.dom().len() <= cap {
            r == m
        } else {
            &&& r.dom().finite()
            &&& r.dom().len() == cap
            &&& r.dom().subset_of(m.dom())
            &&& (forall|k: Seq<char>| #[trigger] r.dom().contains(k) ==> r[k] == m[k])
            &&& (forall|k1: Seq<char>, k2: Seq<char>|
                #[trigger] r.dom().contains(k1) && #[trigger] m.dom().contains(k2)
                    && !r.dom().contains(k2) ==> m[k1] >= m[k2])
        },
    }
}

/// `r` is a correct reduction of `m`: the `min_count` filter applied first,
/// the `max_vocab` bound applied to what remains.
pub open spec fn is_reduction(
    r: Map<Seq<char>, u64>,
    m: Map<Seq<char>, u64>,
    min_count: Option<u64>,
    max_vocab: Option<usize>,
) -> bool {
    is_truncation(r, filtered(m, min_count), max_vocab)
}

/// `e` occurs somewhere in `s`.
spec fn in_entries(s: Seq<(Seq<char>, u64)>, e: (Seq<char>, u64)) -> bool {
    exists|i: int| 0 <= i < s.len() && s[i] == e
}

/// `e` occurs in `s` at position `lo` or later, with a count of at least `n`.
spec fn kept_suffix(s: Seq<(Seq<char>, u64)>, lo: int, n: u64, e: (Seq<char>, u64)) -> bool {
    exists|i: int| lo <= i < s.len() && s[i] == e && s[i].1 >= n
}

/// Removing the element at `i` removes exactly its key, and keeps every
/// element an element of `s`.
proof fn lemma_remove_keys(s: Seq<(Seq<char>, u64)>, i: int)
    requires
        distinct_keys(s),
        0 <= i < s.len(),
    ensures
        distinct_keys(s.remove(i)),
        forall|k: Seq<char>| has_key(s.remove(i), k) == (has_key(s, k) && k != s[i].0),
        forall|j: int|
            0 <= j < s.remove(i).len() ==> #[trigger] s.remove(i)[j] == s[if j < i {
                j
            } else {
                j + 1
            }],
{
    s.remove_ensures(i);
    assert forall|k: Seq<char>| has_key(s.remove(i), k) implies has_key(s, k) && k != s[i].0 by {
        let j = choose|j: int| 0 <= j < s.remove(i).len() && (#[trigger] s.remove(i)[j]).0 == k;
        if j < i {
            assert(s[j].0 == k);
        } else {
            assert(s[j + 1].0 == k);
        }
    }
    assert forall|k: Seq<char>| has_key(s, k) && k != s[i].0 implies has_key(s.remove(i), k) by {
        let j = choose|j: int| 0 <= j < s.len() && (#[trigger] s[j]).0 == k;
        if j < i {
            assert(s.remove(i)[j].0 == k);
        } else {
            assert(j != i);
            assert(s.remove(i)[j - 1].0 == k);
        }
    }
    assert forall|j1: int, j2: int| 0 <= j1 < j2 < s.remove(i).len() implies (#[trigger] s.remove(
        i,
    )[j1]).0 != (#[trigger] s.remove(i)[j2]).0 by {
        let i1: int = if j1 < i { j1 } else { j1 + 1 };
        let i2: int = if j2 < i { j2 } else { j2 + 1 };
        assert(s.remove(i)[j1] == s[i1]);
        assert(s.remove(i)[j2] == s[i2]);
        assert(s[i1].0 != s[i2].0);
    }
}

/// Keep only the entries whose count reaches `n`.
#[verifier::rlimit(50)]
fn retain_min(counts: FrequencyMap, n: u64) -> (r: FrequencyMap)
    requires
        counts.wf(),
    ensures
        r.wf(),
        r.as_map() == filtered(counts.as_map(), Some(n)),
{
    let ghost s0 = counts.view_entries();
    let mut src = counts.entries;
    let mut out: Vec<Entry> = Vec::new();
    proof {
        assert(entries_view(src@) =~= s0.subrange(0, src@.len() as int));
        assert(entries_view(out@) =~= Seq::<(Seq<char>, u64)>::empty());
    }
    while src.len() > 0
        invariant
            distinct_keys(s0),
            forall|i: int| 0 <= i < s0.len() ==> (#[trigger] s0[i]).1 >= 1,
            forall|i: int| 0 <= i < s0.len() ==> valid_token((#[trigger] s0[i]).0),
            src@.len() <= s0.len(),
            entries_view(src@) == s0.subrange(0, src@.len() as int),
            forall|j: int|
                0 <= j < entries_view(out@).len() ==> kept_suffix(
                    s0,
                    src@.len() as int,
                    n,
                    #[trigger] entries_view(out@)[j],
                ),
            forall|i2: int|
                src@.len() <= i2 < s0.len() && (#[trigger] s0[i2]).1 >= n ==> in_entries(
                    entries_view(out@),
                    s0[i2],
                ),
            distinct_keys(entries_view(out@)),
        decreases src@.len(),
    {
        let ghost k0 = src@.len() as int;
        let ghost sv_pre = src@;
        let ghost ov = entries_view(out@);
        let e = src.pop().unwrap();
        proof {
            assert(src@ =~= sv_pre.subrange(0, k0 - 1));
            assert(e == sv_pre[k0 - 1]);
            assert(entries_view(sv_pre)[k0 - 1] == s0[k0 - 1]);
            assert((e.token@, e.count) == s0[k0 - 1]);
            assert(entries_view(src@) =~= s0.subrange(0, src@.len() as int));
        }
        if e.count >= n {
            proof {
                assert(!has_key(ov, s0[k0 - 1].0)) by {
                    if has_key(ov, s0[k0 - 1].0) {
                        let j = choose|j: int|
                            0 <= j < ov.len() && (#[trigger] ov[j]).0 == s0[k0 - 1].0;
                        let i2 = choose|i2: int|
                            k0 <= i2 < s0.len() && s0[i2] == ov[j] && s0[i2].1 >= n;
                        assert(s0[k0 - 1].0 != s0[i2].0);
                    }
                }
            }
            out.push(e);
            proof {
                let ov1 = entries_view(out@);
                assert(ov1 =~= ov.push(s0[k0 - 1]));
                assert forall|j1: int, j2: int| 0 <= j1 < j2 < ov1.len() implies (
                #[trigger] ov1[j1]).0 != (#[trigger] ov1[j2]).0 by {
                    if j2 < ov.len() {
                        assert(ov[j1].0 != ov[j2].0);
                    } else {
                        assert(ov1[j2] == s0[k0 - 1]);
                        assert(ov1[j1] == ov[j1]);
                        assert(has_key(ov, ov[j1].0));
                    }
                }
                assert forall|j: int| 0 <= j < ov1.len() implies kept_suffix(
                    s0,
                    src@.len() as int,
                    n,
                    ov1[j],
                ) by {
                    if j < ov.len() {
                        assert(ov1[j] == ov[j]);
                        let i2 = choose|i2: int|
                            k0 <= i2 < s0.len() && s0[i2] == ov[j] && s0[i2].1 >= n;
                        assert(src@.len() <= i2 < s0.len() && s0[i2] == ov1[j] && s0[i2].1 >= n);
                    } else {
                        assert(ov1[j] == s0[k0 - 1]);
                        assert(src@.len() as int <= k0 - 1 < s0.len() && s0[k0 - 1] == ov1[j]
                            && s0[k0 - 1].1 >= n);
                    }
                }
                assert forall|i2: int|
                    src@.len() <= i2 < s0.len() && (#[trigger] s0[i2]).1 >= n implies in_entries(
                    ov1,
                    s0[i2],
                ) by {
                    if i2 >= k0 {
                        let j = choose|j: int| 0 <= j < ov.len() && ov[j] == s0[i2];
                        assert(ov1[j] == s0[i2]);
                    } else {
                        assert(ov1[ov1.len() - 1] == s0[k0 - 1]);
                    }
                }
            }
        } else {
            proof {
                assert(s0[k0 - 1].1 < n);
                assert forall|i2: int|
                    src@.len() <= i2 < s0.len() && (#[trigger] s0[i2]).1 >= n implies in_entries(
                    entries_view(out@),
                    s0[i2],
                ) by {
                    assert(i2 != k0 - 1);
                }
                assert forall|j: int| 0 <= j < entries_view(out@).len() implies kept_suffix(
                    s0,
                    src@.len() as int,
                    n,
                    #[trigger] entries_view(out@)[j],
                ) by {
                    let i2 = choose|i2: int|
                        k0 <= i2 < s0.len() && s0[i2] == entries_view(out@)[j] && s0[i2].1 >= n;
                    assert(src@.len() <= i2 < s0.len() && s0[i2] == entries_view(out@)[j]
                        && s0[i2].1 >= n);
                }
            }
        }
    }
    let r = FrequencyMap { entries: out };
    proof {
        let ov = r.view_entries();
        let m0 = map_of(s0);
        assert(r.as_map() =~= filtered(m0, Some(n))) by {
            assert forall|k: Seq<char>|
                filtered(m0, Some(n)).dom().contains(k) implies r.as_map().dom().contains(k)
                && r.as_map()[k] == filtered(m0, Some(n))[k] by {
                let i = choose|i: int| 0 <= i < s0.len() && (#[trigger] s0[i]).0 == k;
                lemma_key_lookup(s0, i);
                assert(in_entries(ov, s0[i]));
                let j = choose|j: int| 0 <= j < ov.len() && ov[j] == s0[i];
                lemma_key_lookup(ov, j);
            }
            assert forall|k: Seq<char>| r.as_map().dom().contains(k) implies filtered(
                m0,
                Some(n),
            ).dom().contains(k) by {
                let j = choose|j: int| 0 <= j < ov.len() && (#[trigger] ov[j]).0 == k;
                assert(kept_suffix(s0, 0, n, ov[j]));
                let i2 = choose|i2: int| 0 <= i2 < s0.len() && s0[i2] == ov[j] && s0[i2].1 >= n;
                lemma_key_lookup(s0, i2);
            }
        }
    }
    r
}

/// Keep `cap` entries of highest count; a no-op if the map already fits.
#[verifier::rlimit(50)]
fn truncate_top(counts: FrequencyMap, cap: usize) -> (r: FrequencyMap)
    requires
        counts.wf(),
    ensures
        r.wf(),
        is_truncation(r.as_map(), counts.as_map(), Some(cap)),
{
    let ghost s0 = counts.view_entries();
    proof {
        lemma_map_of_len(s0);
    }
    if counts.entries.len() <= cap {
        return counts;
    }
    let mut src = counts.entries;
    let mut out: Vec<Entry> = Vec::new();
    proof {
        assert(entries_view(src@) =~= s0);
        assert(entries_view(out@) =~= Seq::<(Seq<char>, u64)>::empty());
        assert forall|j: int| 0 <= j < entries_view(src@).len() implies in_entries(
            s0,
            #[trigger] entries_view(src@)[j],
        ) by {
            assert(0 <= j < s0.len() && s0[j] == entries_view(src@)[j]);
        }
    }
    while out.len() < cap
        invariant
            distinct_keys(s0),
            forall|i: int| 0 <= i < s0.len() ==> (#[trigger] s0[i]).1 >= 1,
            forall|i: int| 0 <= i < s0.len() ==> valid_token((#[trigger] s0[i]).0),
            cap < s0.len(),
            out@.len() <= cap,
            entries_view(src@).len() + entries_view(out@).len() == s0.len(),
            forall|j: int|
                0 <= j < entries_view(src@).len() ==> in_entries(
                    s0,
                    #[trigger] entries_view(src@)[j],
                ),
            forall|j: int|
                0 <= j < entries_view(out@).len() ==> in_entries(
                    s0,
                    #[trigger] entries_view(out@)[j],
                ),
            forall|k: Seq<char>|
                #[trigger] has_key(s0, k) ==> has_key(entries_view(src@), k) || has_key(
                    entries_view(out@),
                    k,
                ),
            forall|k: Seq<char>|
                !(#[trigger] has_key(entries_view(src@), k) && #[trigger] has_key(
                    entries_view(out@),
                    k,
                )),
            distinct_keys(entries_view(src@)),
            distinct_keys(entries_view(out@)),
            forall|j1: int, j2: int|
                0 <= j1 < entries_view(out@).len() && 0 <= j2 < entries_view(src@).len()
                    ==> (#[trigger] entries_view(out@)[j1]).1 >= (#[trigger] entries_view(
                    src@,
                )[j2]).1,
        decreases cap - out@.len(),
    {
        let ghost sv = entries_view(src@);
        let ghost ov = entries_view(out@);
        let mut best: usize = 0;
        let mut t: usize = 1;
        while t < src.len()
            invariant
                src@.len() > 0,
                sv == entries_view(src@),
                best < t,
                t <= src@.len(),
                forall|j: int| 0 <= j < t ==> (#[trigger] sv[j]).1 <= sv[best as int].1,
            decreases src@.len() - t,
        {
            if src[t].count > src[best].count {
                best = t;
            }
            t += 1;
        }
        let ghost vsrc_pre = src@;
        let e = src.remove(best);
        out.push(e);
        proof {
            let sv1 = entries_view(src@);
            let ov1 = entries_view(out@);
            assert(src@ == vsrc_pre.remove(best as int));
            vsrc_pre.remove_ensures(best as int);
            assert(sv1 =~= sv.remove(best as int));
            assert((e.token@, e.count) == sv[best as int]);
            assert(ov1 =~= ov.push(sv[best as int]));
            lemma_remove_keys(sv, best as int);
            // the chosen entry's key is fresh in `out`
            assert(!has_key(ov, sv[best as int].0)) by {
                assert(has_key(sv, sv[best as int].0));
            }
            assert(distinct_keys(ov1)) by {
                assert forall|j1: int, j2: int| 0 <= j1 < j2 < ov1.len() implies (
                #[trigger] ov1[j1]).0 != (#[trigger] ov1[j2]).0 by {
                    if j2 < ov.len() {
                        assert(ov[j1].0 != ov[j2].0);
                    } else {
                        assert(ov1[j2] == sv[best as int]);
                        assert(ov1[j1] == ov[j1]);
                        assert(has_key(ov, ov[j1].0));
                    }
                }
            }
            // every key of the whole map still lies on one side
            assert forall|k: Seq<char>| #[trigger] has_key(s0, k) implies has_key(sv1, k)
                || has_key(ov1, k) by {
                if has_key(sv, k) {
                    if k == sv[best as int].0 {
                        assert(ov1[ov1.len() - 1].0 == k);
                    } else {
                        assert(has_key(sv1, k));
                    }
                } else {
                    assert(has_key(ov, k));
                    let j = choose|j: int| 0 <= j < ov.len() && (#[trigger] ov[j]).0 == k;
                    assert(ov1[j].0 == k);
                }
            }
            // and on at most one side
            assert forall|k: Seq<char>|
                !(#[trigger] has_key(sv1, k) && #[trigger] has_key(ov1, k)) by {
                if has_key(sv1, k) && has_key(ov1, k) {
                    let j = choose|j: int| 0 <= j < ov1.len() && (#[trigger] ov1[j]).0 == k;
                    if j < ov.len() {
                        assert(has_key(ov, k));
                        assert(has_key(sv, k));
                    } else {
                        assert(k == sv[best as int].0);
                    }
                }
            }
            // the selected counts still dominate what remains
            assert forall|j1: int, j2: int|
                0 <= j1 < ov1.len() && 0 <= j2 < sv1.len() implies (#[trigger] ov1[j1]).1 >= (
            #[trigger] sv1[j2]).1 by {
                let i2: int = if j2 < best { j2 } else { j2 + 1 };
                assert(sv1[j2] == sv[i2]);
                if j1 < ov.len() {
                    assert(ov[j1].1 >= sv[i2].1);
                } else {
                    assert(ov1[j1] == sv[best as int]);
                    assert(sv[i2].1 <= sv[best as int].1);
                }
            }
            // every element still comes from the entries given
            assert forall|j: int| 0 <= j < ov1.len() implies in_entries(
                s0,
                #[trigger] ov1[j],
            ) by {
                if j < ov.len() {
                    assert(ov1[j] == ov[j]);
                    assert(in_entries(s0, ov[j]));
                } else {
                    assert(ov1[j] == sv[best as int]);
                    assert(in_entries(s0, sv[best as int]));
                }
            }
            assert forall|j: int| 0 <= j < sv1.len() implies in_entries(
                s0,
                #[trigger] sv1[j],
            ) by {
                let i2: int = if j < best { j } else { j + 1 };
                assert(sv1[j] == sv[i2]);
                assert(in_entries(s0, sv[i2]));
            }
        }
    }
    let r = FrequencyMap { entries: out };
    proof {
        let sv = entries_view(src@);
        let ov = r.view_entries();
        let m0 = map_of(s0);
        lemma_map_of_len(ov);
        assert forall|k: Seq<char>| #[trigger] r.as_map().dom().contains(k) implies
            m0.dom().contains(k) && r.as_map()[k] == m0[k] by {
            let j = choose|j: int| 0 <= j < ov.len() && (#[trigger] ov[j]).0 == k;
            lemma_key_lookup(ov, j);
            assert(in_entries(s0, ov[j]));
            let i = choose|i: int| 0 <= i < s0.len() && s0[i] == ov[j];
            lemma_key_lookup(s0, i);
        }
        assert forall|k1: Seq<char>, k2: Seq<char>|
            #[trigger] r.as_map().dom().contains(k1) && #[trigger] m0.dom().contains(k2)
                && !r.as_map().dom().contains(k2) implies m0[k1] >= m0[k2] by {
            let j1 = choose|j: int| 0 <= j < ov.len() && (#[trigger] ov[j]).0 == k1;
            lemma_key_lookup(ov, j1);
            assert(in_entries(s0, ov[j1]));
            let i1 = choose|i: int| 0 <= i < s0.len() && s0[i] == ov[j1];
            lemma_key_lookup(s0, i1);
            assert(has_key(s0, k2));
            assert(!has_key(ov, k2));
            assert(has_key(sv, k2));
            let j2 = choose|j: int| 0 <= j < sv.len() && (#[trigger] sv[j]).0 == k2;
            assert(in_entries(s0, sv[j2]));
            let i2 = choose|i: int| 0 <= i < s0.len() && s0[i] == sv[j2];
            lemma_key_lookup(s0, i2);
            assert(ov[j1].1 >= sv[j2].1);
        }
    }
    r
}

/// Reducing an already-reduced map once more, with the same bounds, leaves
/// it unchanged.
pub proof fn lemma_reduce_idempotent(
    m: Map<Seq<char>, u64>,
    m2: Map<Seq<char>, u64>,
    r: Map<Seq<char>, u64>,
    min_count: Option<u64>,
    max_vocab: Option<usize>,
)
    requires
        m.dom().finite(),
        is_reduction(m2, m, min_count, max_vocab),
        is_reduction(r, m2, min_count, max_vocab),
    ensures
        r == m2,
{
    let f = filtered(m, min_count);
    assert(f.dom().subset_of(m.dom())) by {
        match min_count {
            Option::None => {},
            Option::Some(n) => {
                assert forall|k: Seq<char>| f.dom().contains(k) implies m.dom().contains(k) by {}
            },
        }
    }
    lemma_len_subset(f.dom(), m.dom());
    // the already-reduced map keeps a subset of the filtered entries, with
    // the same counts
    assert(m2.dom().subset_of(f.dom()) && (forall|k: Seq<char>|
        #[trigger] m2.dom().contains(k) ==> m2[k] == f[k])) by {
        match max_vocab {
            Option::None => {
                assert(m2 == f);
            },
            Option::Some(cap) => {
                if f.dom().len() <= cap {
                    assert(m2 == f);
                }
            },
        }
    }
    lemma_len_subset(m2.dom(), f.dom());
    // filtering the reduced map again keeps everything
    assert(filtered(m2, min_count) =~= m2) by {
        match min_count {
            Option::None => {},
            Option::Some(n) => {
                assert forall|k: Seq<char>| m2.dom().contains(k) implies m2[k] >= n by {
                    assert(f.dom().contains(k));
                }
            },
        }
    }
    // the reduced map already fits within the size bound
    match max_vocab {
        Option::None => {
            assert(r == filtered(m2, min_count));
        },
        Option::Some(cap) => {
            assert(m2.dom().len() <= cap) by {
                if f.dom().len() <= cap {
                    assert(m2 == f);
                }
            }
            assert(r == filtered(m2, min_count));
        },
    }
}

/// Filtering by a minimum count alone never enlarges the vocabulary.
pub proof fn lemma_min_count_monotone(m: Map<Seq<char>, u64>, r: Map<Seq<char>, u64>, n: u64)
    requires
        m.dom().finite(),
        is_reduction(r, m, Some(n), None),
    ensures
        r.dom().finite(),
        r.dom().len() <= m.dom().len(),
{
    assert(r == filtered(m, Some(n)));
    assert(r.dom().subset_of(m.dom())) by {
        assert forall|k: Seq<char>| r.dom().contains(k) implies m.dom().contains(k) by {}
    }
    lemma_len_subset(r.dom(), m.dom());
}

/// Bounding the size alone yields exactly the smaller of the map's size
/// and the bound.
pub proof fn lemma_max_vocab_size(m: Map<Seq<char>, u64>, r: Map<Seq<char>, u64>, cap: usize)
    requires
        m.dom().finite(),
        is_reduction(r, m, None, Some(cap)),
    ensures
        r.dom().finite(),
        r.dom().len() == if m.dom().len() <= cap {
            m.dom().len()
        } else {
            cap as nat
        },
{
    if m.dom().len() <= cap {
        assert(r == m);
    }
}

/// Reducing with both bounds at once is the same as filtering by the
/// minimum count first and bounding the size of the result afterwards.
pub proof fn lemma_reduce_composes(
    m: Map<Seq<char>, u64>,
    r1: Map<Seq<char>, u64>,
    r: Map<Seq<char>, u64>,
    n: u64,
    cap: usize,
)
    requires
        is_reduction(r1, m, Some(n), None),
    ensures
        is_reduction(r, m, Some(n), Some(cap)) <==> is_reduction(r, r1, None, Some(cap)),
{
    assert(r1 == filtered(m, Some(n)));
    assert(filtered(r1, None) == r1);
}

/// Reduce a frequency map: drop entries below `min_count`, then keep at
/// most `max_vocab` entries of highest count.
pub fn filter_counts(counts: FrequencyMap, min_count: Option<u64>, max_vocab: Option<usize>) -> (r:
    FrequencyMap)
    requires
        counts.wf(),
    ensures
        r.wf(),
        is_reduction(r.as_map(), counts.as_map(), min_count, max_vocab),
{
    let ghost m0 = counts.as_map();
    let mid = match min_count {
        Some(n) => retain_min(counts, n),
        None => counts,
    };
    proof {
        assert(mid.as_map() == filtered(m0, min_count));
    }
    match max_vocab {
        Some(cap) => truncate_top(mid, cap),
        None => mid,
    }
}

} // verus!

