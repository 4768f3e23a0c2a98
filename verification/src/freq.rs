//! The frequency map: tokens with their occurrence counts.
//!
//! The map is stored as a vector of entries with pairwise-distinct tokens.
//! Its mathematical meaning is the finite `Map` from token character
//! sequences to counts, given by [`map_of`].

use vstd::prelude::*;

use crate::tokens::valid_token;

verus! {

/// One vocabulary entry: a token and how often it occurred.
pub struct Entry {
    pub token: String,
    pub count: u64,
}

/// A mapping from tokens to occurrence counts.
pub struct FrequencyMap {
    pub entries: Vec<Entry>,
}

/// The entries of `v` as pairs of token characters and count.
pub open spec fn entries_view(v: Seq<Entry>) -> Seq<(Seq<char>, u64)> {
    v.map_values(|e: Entry| (e.token@, e.count))
}

/// No two elements of `s` carry the same token.
pub open spec fn distinct_keys(s: Seq<(Seq<char>, u64)>) -> bool {
    forall|i: int, j: int| 0 <= i < j < s.len() ==> (#[trigger] s[i]).0 != (#[trigger] s[j]).0
}

/// Some element of `s` carries the token `k`.
pub open spec fn has_key(s: Seq<(Seq<char>, u64)>, k: Seq<char>) -> bool {
    exists|i: int| 0 <= i < s.len() && (#[trigger] s[i]).0 == k
}

/// The count stored beside the token `k`.
pub open spec fn value_at(s: Seq<(Seq<char>, u64)>, k: Seq<char>) -> u64 {
    s[choose|i: int| 0 <= i < s.len() && (#[trigger] s[i]).0 == k].1
}

/// The mapping that a sequence of entries denotes.
pub open spec fn map_of(s: Seq<(Seq<char>, u64)>) -> Map<Seq<char>, u64> {
    Map::new(|k: Seq<char>| has_key(s, k), |k: Seq<char>| value_at(s, k))
}

/// The sum of all counts in `s`.
pub open spec fn sum_counts(s: Seq<(Seq<char>, u64)>) -> int
    decreases s.len(),
{
    if s.len() == 0 {
        0
    } else {
        sum_counts(s.drop_last()) + s.last().1
    }
}

/// An entry sequence with distinct tokens denotes `k |-> v` exactly at its
/// elements.
pub proof fn lemma_key_lookup(s: Seq<(Seq<char>, u64)>, i: int)
    requires
        distinct_keys(s),
        0 <= i < s.len(),
    ensures
        map_of(s).dom().contains(s[i].0),
        map_of(s)[s[i].0] == s[i].1,
{
    assert(has_key(s, s[i].0));
    let j = choose|j: int| 0 <= j < s.len() && (#[trigger] s[j]).0 == s[i].0;
    if j < i {
        assert(s[j].0 != s[i].0);
    } else if i < j {
        assert(s[i].0 != s[j].0);
    }
}

/// With distinct tokens, the denoted map has exactly one key per element.
pub proof fn lemma_map_of_len(s: Seq<(Seq<char>, u64)>)
    requires
        distinct_keys(s),
    ensures
        map_of(s).dom().finite(),
        map_of(s).dom().len() == s.len(),
    decreases s.len(),
{
    if s.len() == 0 {
        assert(map_of(s).dom() =~= Set::<Seq<char>>::empty());
    } else {
        let t = s.drop_last();
        assert(distinct_keys(t));
        lemma_map_of_len(t);
        assert(!has_key(t, s.last().0)) by {
            if has_key(t, s.last().0) {
                let i = choose|i: int| 0 <= i < t.len() && (#[trigger] t[i]).0 == s.last().0;
                assert(s[i].0 == s[s.len() - 1].0);
            }
        }
        assert(map_of(s).dom() =~= map_of(t).dom().insert(s.last().0)) by {
            assert forall|k: Seq<char>| has_key(s, k) implies has_key(t, k) || k == s.last().0 by {
                let i = choose|i: int| 0 <= i < s.len() && (#[trigger] s[i]).0 == k;
                if i < s.len() - 1 {
                    assert(t[i].0 == k);
                }
            }
            assert forall|k: Seq<char>| has_key(t, k) || k == s.last().0 implies has_key(s, k) by {
                if has_key(t, k) {
                    let i = choose|i: int| 0 <= i < t.len() && (#[trigger] t[i]).0 == k;
                    assert(s[i].0 == k);
                } else {
                    assert(s[s.len() - 1].0 == k);
                }
            }
        }
    }
}

/// Replacing one element changes the sum by the difference of the counts.
pub proof fn lemma_sum_update(s: Seq<(Seq<char>, u64)>, i: int, e: (Seq<char>, u64))
    requires
        0 <= i < s.len(),
    ensures
        sum_counts(s.update(i, e)) == sum_counts(s) - s[i].1 + e.1,
    decreases s.len(),
{
    let u = s.update(i, e);
    if i == s.len() - 1 {
        assert(u.drop_last() =~= s.drop_last());
    } else {
        assert(u.drop_last() =~= s.drop_last().update(i, e));
        assert(u.last() == s.last());
        lemma_sum_update(s.drop_last(), i, e);
    }
}

/// Adding one occurrence of `k`: increment its count, or enter it with
/// count one.
pub open spec fn bump(m: Map<Seq<char>, u64>, k: Seq<char>) -> Map<Seq<char>, u64> {
    if m.dom().contains(k) {
        m.insert(k, (m[k] + 1) as u64)
    } else {
        m.insert(k, 1u64)
    }
}

impl FrequencyMap {
    /// The entries as pairs of token characters and count.
    pub open spec fn view_entries(self) -> Seq<(Seq<char>, u64)> {
        entries_view(self.entries@)
    }

    /// The denoted mapping from tokens to counts.
    pub open spec fn as_map(self) -> Map<Seq<char>, u64> {
        map_of(self.view_entries())
    }

    /// The sum of all counts.
    pub open spec fn total(self) -> int {
        sum_counts(self.view_entries())
    }

    /// Tokens are distinct and valid, and every count is at least one.
    pub open spec fn wf(self) -> bool {
        &&& distinct_keys(self.view_entries())
        &&& forall|i: int|
            0 <= i < self.view_entries().len() ==> (#[trigger] self.view_entries()[i]).1 >= 1
        &&& forall|i: int|
            0 <= i < self.view_entries().len() ==> valid_token(
                (#[trigger] self.view_entries()[i]).0,
            )
    }

    /// The empty frequency map.
    pub fn new() -> (r: FrequencyMap)
        ensures
            r.wf(),
            r.view_entries() == Seq::<(Seq<char>, u64)>::empty(),
            r.as_map() == Map::<Seq<char>, u64>::empty(),
    {
        let r = FrequencyMap { entries: Vec::new() };
        proof {
            assert(r.view_entries() =~= Seq::<(Seq<char>, u64)>::empty());
            assert(r.as_map() =~= Map::<Seq<char>, u64>::empty());
        }
        r
    }

    /// The number of distinct tokens.
    pub fn len(&self) -> (r: usize)
        requires
            self.wf(),
        ensures
            r == self.view_entries().len(),
            r == self.as_map().dom().len(),
            self.as_map().dom().finite(),
    {
        proof {
            lemma_map_of_len(self.view_entries());
        }
        self.entries.len()
    }

    /// The position of `token` among the entries, if present.
    fn find(&self, token: &String) -> (r: Option<usize>)
        ensures
            match r {
                Some(i) => i < self.view_entries().len() && self.view_entries()[i as int].0
                    == token@,
                None => !has_key(self.view_entries(), token@),
            },
    {
        let n = self.entries.len();
        let mut i: usize = 0;
        while i < n
            invariant
                n == self.view_entries().len(),
                i <= n,
                forall|j: int| 0 <= j < i ==> (#[trigger] self.view_entries()[j]).0 != token@,
            decreases n - i,
        {
            if self.entries[i].token == *token {
                return Some(i);
            }
            i += 1;
        }
        None
    }

    /// The count recorded for `token`, if any.
    pub fn get(&self, token: &String) -> (r: Option<u64>)
        requires
            self.wf(),
        ensures
            r == (if self.as_map().dom().contains(token@) {
                Some(self.as_map()[token@])
            } else {
                None::<u64>
            }),
    {
        match self.find(token) {
            Some(i) => {
                proof {
                    lemma_key_lookup(self.view_entries(), i as int);
                }
                Some(self.entries[i].count)
            },
            None => None,
        }
    }

    /// Record one more occurrence of `token`.
    pub fn increment(&mut self, token: String)
        requires
            old(self).wf(),
            valid_token(token@),
            old(self).as_map().dom().contains(token@) ==> old(self).as_map()[token@]
                < u64::MAX,
        ensures
            final(self).wf(),
            final(self).as_map() == bump(old(self).as_map(), token@),
            final(self).total() == old(self).total() + 1,
            final(self).as_map().dom() == old(self).as_map().dom().insert(token@),
    {
        let ghost s0 = self.view_entries();
        match self.find(&token) {
            Some(i) => {
                proof {
                    lemma_key_lookup(s0, i as int);
                }
                let c = self.entries[i].count;
                self.entries[i] = Entry { token, count: c + 1 };
                proof {
                    let s1 = self.view_entries();
                    assert(s1 =~= s0.update(i as int, (s0[i as int].0, (c + 1) as u64)));
                    lemma_sum_update(s0, i as int, (s0[i as int].0, (c + 1) as u64));
                    assert forall|k: Seq<char>| has_key(s1, k) == has_key(s0, k) by {
                        if has_key(s1, k) {
                            let j = choose|j: int| 0 <= j < s1.len() && (#[trigger] s1[j]).0 == k;
                            assert(s0[j].0 == k);
                        }
                        if has_key(s0, k) {
                            let j = choose|j: int| 0 <= j < s0.len() && (#[trigger] s0[j]).0 == k;
                            assert(s1[j].0 == k);
                        }
                    }
                    assert(self.as_map() =~= bump(old(self).as_map(), token@)) by {
                        assert forall|k: Seq<char>| has_key(s1, k) implies map_of(s1)[k] == bump(
                            map_of(s0),
                            token@,
                        )[k] by {
                            lemma_key_lookup(s1, choose|j: int|
                                0 <= j < s1.len() && (#[trigger] s1[j]).0 == k);
                            let j = choose|j: int| 0 <= j < s0.len() && (#[trigger] s0[j]).0 == k;
                            lemma_key_lookup(s0, j);
                            lemma_key_lookup(s1, j);
                        }
                    }
                    assert(self.as_map().dom() =~= old(self).as_map().dom().insert(token@));
                }
            },
            None => {
                self.entries.push(Entry { token, count: 1 });
                proof {
                    let s1 = self.view_entries();
                    assert(s1 =~= s0.push((token@, 1u64)));
                    assert(s1.drop_last() =~= s0);
                    assert forall|k: Seq<char>| has_key(s1, k) == (has_key(s0, k) || k
                        == token@) by {
                        if has_key(s1, k) {
                            let j = choose|j: int| 0 <= j < s1.len() && (#[trigger] s1[j]).0 == k;
                            if j < s0.len() {
                                assert(s0[j].0 == k);
                            }
                        }
                        if has_key(s0, k) {
                            let j = choose|j: int| 0 <= j < s0.len() && (#[trigger] s0[j]).0 == k;
                            assert(s1[j].0 == k);
                        }
                        if k == token@ {
                            assert(s1[s1.len() - 1].0 == k);
                        }
                    }
                    assert(distinct_keys(s1)) by {
                        assert forall|i: int, j: int| 0 <= i < j < s1.len() implies (
                        #[trigger] s1[i]).0 != (#[trigger] s1[j]).0 by {
                            if j < s0.len() {
                                assert(s0[i].0 != s0[j].0);
                            } else {
                                assert(s1[j].0 == token@);
                                assert(s0[i].0 == s1[i].0);
                                assert(has_key(s0, s0[i].0));
                            }
                        }
                    }
                    assert(self.as_map() =~= bump(old(self).as_map(), token@)) by {
                        assert forall|k: Seq<char>| has_key(s1, k) implies map_of(s1)[k] == bump(
                            map_of(s0),
                            token@,
                        )[k] by {
                            let j = choose|j: int| 0 <= j < s1.len() && (#[trigger] s1[j]).0 == k;
                            lemma_key_lookup(s1, j);
                            if k != token@ {
                                let j0 = choose|j0: int|
                                    0 <= j0 < s0.len() && (#[trigger] s0[j0]).0 == k;
                                lemma_key_lookup(s0, j0);
                                lemma_key_lookup(s1, j0);
                            } else {
                                lemma_key_lookup(s1, s1.len() - 1);
                            }
                        }
                    }
                    assert(self.as_map().dom() =~= old(self).as_map().dom().insert(token@));
                }
            },
        }
    }
}

} // verus!
