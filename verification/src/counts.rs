//! Frequency accumulation over a sequence of text lines.
//!
//! [`tokenize`] splits one line on maximal whitespace runs; [`get_counts`]
//! folds a whole input into a [`FrequencyMap`] whose count for each token
//! is exactly its number of occurrences, and whose counts sum to the total
//! number of tokens.

use vstd::prelude::*;

use crate::freq::FrequencyMap;
use crate::freq::bump;
use crate::tokens::char_is_space;
use crate::tokens::is_space;
use crate::tokens::valid_token;

verus! {

/// The views of a sequence of strings.
pub open spec fn views_of(s: Seq<String>) -> Seq<Seq<char>> {
    s.map_values(|t: String| t@)
}

/// Tokens of `s`, with `cur` the partial token read so far.
pub open spec fn toks(s: Seq<char>, cur: Seq<char>) -> Seq<Seq<char>>
    decreases s.len(),
{
    if s.len() == 0 {
        if cur.len() == 0 {
            Seq::<Seq<char>>::empty()
        } else {
            seq![cur]
        }
    } else if is_space(s[0]) {
        if cur.len() == 0 {
            toks(s.drop_first(), Seq::<char>::empty())
        } else {
            seq![cur] + toks(s.drop_first(), Seq::<char>::empty())
        }
    } else {
        toks(s.drop_first(), cur.push(s[0]))
    }
}

/// The maximal whitespace-delimited tokens of a line, in order.
pub open spec fn tokens_of(s: Seq<char>) -> Seq<Seq<char>> {
    toks(s, Seq::<char>::empty())
}

/// How often `t` occurs in `ts`.
pub open spec fn count_in(ts: Seq<Seq<char>>, t: Seq<char>) -> nat
    decreases ts.len(),
{
    if ts.len() == 0 {
        0
    } else {
        count_in(ts.drop_last(), t) + if ts.last() == t {
            1nat
        } else {
            0nat
        }
    }
}

/// The total number of tokens in `lines`.
pub open spec fn total_tokens(lines: Seq<Seq<char>>) -> nat
    decreases lines.len(),
{
    if lines.len() == 0 {
        0
    } else {
        total_tokens(lines.drop_last()) + tokens_of(lines.last()).len()
    }
}

/// How often `t` occurs over all of `lines`.
pub open spec fn occurrences(lines: Seq<Seq<char>>, t: Seq<char>) -> nat
    decreases lines.len(),
{
    if lines.len() == 0 {
        0
    } else {
        occurrences(lines.drop_last(), t) + count_in(tokens_of(lines.last()), t)
    }
}

/// The frequency mapping of `lines`: every token that occurs, with its
/// number of occurrences.
pub open spec fn counts_map(lines: Seq<Seq<char>>) -> Map<Seq<char>, u64> {
    Map::new(
        |t: Seq<char>| occurrences(lines, t) >= 1,
        |t: Seq<char>| occurrences(lines, t) as u64,
    )
}

/// Occurrences over `lines` plus those in `tj`, a prefix of a further
/// line's tokens.
pub open spec fn occ_partial(lines: Seq<Seq<char>>, tj: Seq<Seq<char>>, t: Seq<char>) -> nat {
    occurrences(lines, t) + count_in(tj, t)
}

/// The frequency mapping mid-line: `lines` done, `tj` tokens into the next.
pub open spec fn partial_map(lines: Seq<Seq<char>>, tj: Seq<Seq<char>>) -> Map<Seq<char>, u64> {
    Map::new(
        |t: Seq<char>| occ_partial(lines, tj, t) >= 1,
        |t: Seq<char>| occ_partial(lines, tj, t) as u64,
    )
}

/// A token occurs at most as often as there are tokens.
proof fn lemma_count_le_len(ts: Seq<Seq<char>>, t: Seq<char>)
    ensures
        count_in(ts, t) <= ts.len(),
    decreases ts.len(),
{
    if ts.len() > 0 {
        lemma_count_le_len(ts.drop_last(), t);
    }
}

/// A token's occurrences are at most the total number of tokens.
proof fn lemma_occ_le_total(lines: Seq<Seq<char>>, t: Seq<char>)
    ensures
        occurrences(lines, t) <= total_tokens(lines),
    decreases lines.len(),
{
    if lines.len() > 0 {
        lemma_occ_le_total(lines.drop_last(), t);
        lemma_count_le_len(tokens_of(lines.last()), t);
    }
}

/// The tokens before line `i` plus all of line `i` are at most the total.
proof fn lemma_total_prefix(lines: Seq<Seq<char>>, i: int)
    requires
        0 <= i < lines.len(),
    ensures
        total_tokens(lines.subrange(0, i)) + tokens_of(lines[i]).len() <= total_tokens(lines),
    decreases lines.len(),
{
    if i == lines.len() - 1 {
        assert(lines.subrange(0, i) =~= lines.drop_last());
    } else {
        let d = lines.drop_last();
        assert(d.subrange(0, i) =~= lines.subrange(0, i));
        assert(d[i] == lines[i]);
        lemma_total_prefix(d, i);
    }
}

/// Accounting one more token bumps the partial mapping at that token.
proof fn lemma_partial_step(lines: Seq<Seq<char>>, tj: Seq<Seq<char>>, t: Seq<char>)
    requires
        occ_partial(lines, tj, t) + 1 <= u64::MAX,
    ensures
        partial_map(lines, tj.push(t)) == bump(partial_map(lines, tj), t),
{
    assert(tj.push(t).drop_last() =~= tj);
    assert(tj.push(t).last() == t);
    assert forall|u: Seq<char>| true implies count_in(tj.push(t), u) == count_in(tj, u) + (if u
        == t {
        1nat
    } else {
        0nat
    }) by {}
    assert(partial_map(lines, tj.push(t)) =~= bump(partial_map(lines, tj), t));
}

/// Finishing a line folds its tokens into the line-level mapping.
proof fn lemma_counts_push(lines: Seq<Seq<char>>, l: Seq<char>)
    ensures
        counts_map(lines.push(l)) == partial_map(lines, tokens_of(l)),
        total_tokens(lines.push(l)) == total_tokens(lines) + tokens_of(l).len(),
{
    assert(lines.push(l).drop_last() =~= lines);
    assert(lines.push(l).last() == l);
    assert(counts_map(lines.push(l)) =~= partial_map(lines, tokens_of(l)));
}

/// The current partial token: the characters from `start` to `i`.
pub open spec fn cur_of(s: Seq<char>, in_tok: bool, start: int, i: int) -> Seq<char> {
    if in_tok {
        s.subrange(start, i)
    } else {
        Seq::<char>::empty()
    }
}

/// Split a line into its maximal whitespace-delimited tokens.
pub fn tokenize(line: &str) -> (r: Vec<String>)
    ensures
        views_of(r@) == tokens_of(line@),
        forall|j: int| 0 <= j < r@.len() ==> valid_token((#[trigger] r@[j])@),
{
    let n = line.unicode_len();
    let mut r: Vec<String> = Vec::new();
    let mut i: usize = 0;
    let mut start: usize = 0;
    let mut in_tok: bool = false;
    proof {
        assert(views_of(r@) =~= Seq::<Seq<char>>::empty());
        assert(line@.subrange(0, n as int) =~= line@);
    }
    while i < n
        invariant
            n == line@.len(),
            i <= n,
            in_tok ==> start < i,
            in_tok ==> forall|j: int| start <= j < i ==> !is_space(#[trigger] line@[j]),
            forall|j: int| 0 <= j < r@.len() ==> valid_token((#[trigger] r@[j])@),
            tokens_of(line@) == views_of(r@) + toks(
                line@.subrange(i as int, n as int),
                cur_of(line@, in_tok, start as int, i as int),
            ),
        decreases n - i,
    {
        let ghost rem = line@.subrange(i as int, n as int);
        let ghost cur = cur_of(line@, in_tok, start as int, i as int);
        let c = line.get_char(i);
        proof {
            assert(rem[0] == line@[i as int]);
            assert(rem.drop_first() =~= line@.subrange(i + 1, n as int));
        }
        if char_is_space(c) {
            if in_tok {
                let t = line.substring_char(start, i).to_owned();
                proof {
                    assert(t@ == cur);
                    assert(cur.len() > 0);
                    assert(toks(rem, cur) == seq![cur] + toks(
                        rem.drop_first(),
                        Seq::<char>::empty(),
                    ));
                }
                r.push(t);
                proof {
                    assert(views_of(r@) =~= views_of(r@).drop_last().push(cur));
                    assert((views_of(r@).drop_last() + (seq![cur] + toks(
                        rem.drop_first(),
                        Seq::<char>::empty(),
                    ))) =~= views_of(r@) + toks(rem.drop_first(), Seq::<char>::empty()));
                }
                in_tok = false;
            } else {
                proof {
                    assert(toks(rem, cur) == toks(rem.drop_first(), Seq::<char>::empty()));
                }
            }
        } else {
            if !in_tok {
                in_tok = true;
                start = i;
                proof {
                    assert(cur_of(line@, true, i as int, i + 1) =~= cur.push(line@[i as int]));
                    assert(toks(rem, cur) == toks(rem.drop_first(), cur.push(rem[0])));
                }
            } else {
                proof {
                    assert(cur_of(line@, true, start as int, i + 1) =~= cur.push(
                        line@[i as int],
                    ));
                    assert(toks(rem, cur) == toks(rem.drop_first(), cur.push(rem[0])));
                }
            }
        }
        i += 1;
    }
    if in_tok {
        let ghost cur = cur_of(line@, true, start as int, n as int);
        let t = line.substring_char(start, n).to_owned();
        proof {
            assert(line@.subrange(n as int, n as int) =~= Seq::<char>::empty());
            assert(toks(Seq::<char>::empty(), cur) == seq![cur]);
        }
        r.push(t);
        proof {
            assert(views_of(r@) =~= views_of(r@).drop_last().push(cur));
            assert(views_of(r@).drop_last() + seq![cur] =~= views_of(r@));
        }
    } else {
        proof {
            assert(line@.subrange(n as int, n as int) =~= Seq::<char>::empty());
            assert(toks(Seq::<char>::empty(), Seq::<char>::empty())
                == Seq::<Seq<char>>::empty());
            assert(views_of(r@) + Seq::<Seq<char>>::empty() =~= views_of(r@));
        }
    }
    r
}

/// Accumulate token frequencies over all of `lines`.
///
/// The result maps every occurring token to its exact occurrence count,
/// and the counts sum to the total number of tokens.
pub fn get_counts(lines: &Vec<String>) -> (r: FrequencyMap)
    requires
        total_tokens(views_of(lines@)) <= u64::MAX,
    ensures
        r.wf(),
        r.as_map() == counts_map(views_of(lines@)),
        r.total() == total_tokens(views_of(lines@)),
{
    let ghost lv = views_of(lines@);
    let mut fm = FrequencyMap::new();
    let mut i: usize = 0;
    proof {
        assert(lv.subrange(0, 0) =~= Seq::<Seq<char>>::empty());
        assert(fm.as_map() =~= counts_map(lv.subrange(0, 0)));
    }
    while i < lines.len()
        invariant
            lv == views_of(lines@),
            total_tokens(lv) <= u64::MAX,
            i <= lines@.len(),
            lv.len() == lines@.len(),
            fm.wf(),
            fm.as_map() == counts_map(lv.subrange(0, i as int)),
            fm.total() == total_tokens(lv.subrange(0, i as int)),
        decreases lines@.len() - i,
    {
        let ghost pre = lv.subrange(0, i as int);
        let toks_i = tokenize(lines[i].as_str());
        proof {
            assert(lines@[i as int]@ == lv[i as int]);
            assert(views_of(toks_i@) == tokens_of(lv[i as int]));
            assert(views_of(toks_i@).subrange(0, 0) =~= Seq::<Seq<char>>::empty());
            assert(fm.as_map() =~= partial_map(pre, views_of(toks_i@).subrange(0, 0)));
            lemma_total_prefix(lv, i as int);
        }
        let mut j: usize = 0;
        while j < toks_i.len()
            invariant
                lv == views_of(lines@),
                total_tokens(lv) <= u64::MAX,
                i < lv.len(),
                pre == lv.subrange(0, i as int),
                views_of(toks_i@) == tokens_of(lv[i as int]),
                total_tokens(pre) + tokens_of(lv[i as int]).len() <= total_tokens(lv),
                j <= toks_i@.len(),
                forall|j2: int| 0 <= j2 < toks_i@.len() ==> valid_token(
                    (#[trigger] toks_i@[j2])@,
                ),
                fm.wf(),
                fm.as_map() == partial_map(pre, views_of(toks_i@).subrange(0, j as int)),
                fm.total() == total_tokens(pre) + j,
            decreases toks_i@.len() - j,
        {
            let ghost tj = views_of(toks_i@).subrange(0, j as int);
            let t = toks_i[j].clone();
            proof {
                assert(t@ == toks_i@[j as int]@);
                assert(t@ == views_of(toks_i@)[j as int]);
                lemma_occ_le_total(pre, t@);
                lemma_count_le_len(tj, t@);
                // the next occurrence still fits in the count type
                assert(occ_partial(pre, tj, t@) + 1 <= u64::MAX) by {
                    assert(count_in(tj, t@) <= j);
                    assert(tokens_of(lv[i as int]).len() >= j + 1);
                }
                assert(fm.as_map().dom().contains(t@) ==> fm.as_map()[t@] < u64::MAX);
            }
            fm.increment(t);
            proof {
                lemma_partial_step(pre, tj, toks_i@[j as int]@);
                assert(tj.push(toks_i@[j as int]@) =~= views_of(toks_i@).subrange(0, j + 1));
            }
            j += 1;
        }
        proof {
            assert(views_of(toks_i@).subrange(0, j as int) =~= views_of(toks_i@));
            lemma_counts_push(pre, lv[i as int]);
            assert(pre.push(lv[i as int]) =~= lv.subrange(0, i + 1));
        }
        i += 1;
    }
    proof {
        assert(lv.subrange(0, lv.len() as int) =~= lv);
    }
    fm
}

} // verus!
