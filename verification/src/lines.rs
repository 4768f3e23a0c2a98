//! The `<token> <count>` line format: serialization and parsing.
//!
//! Each vocabulary entry becomes one line: the token, one space, the count
//! in decimal without leading zeros. [`to_lines`] writes a frequency map in
//! this form; [`parse_line`] and [`from_lines`] read it back.

use vstd::prelude::*;

use crate::freq::Entry;
use crate::freq::FrequencyMap;
use crate::freq::distinct_keys;
use crate::freq::entries_view;
use crate::freq::has_key;
use crate::tokens::is_space;
use crate::tokens::char_is_space;
use crate::tokens::valid_token;

verus! {

/// A decimal digit.
pub open spec fn is_digit(c: char) -> bool {
    0x30 <= c as u32 && c as u32 <= 0x39
}

/// The value of a decimal digit.
pub open spec fn digit_val(c: char) -> nat {
    (c as u32 - 0x30) as nat
}

/// The decimal digit with value `d`.
pub open spec fn digit_char(d: nat) -> char {
    if d == 0 {
        '0'
    } else if d == 1 {
        '1'
    } else if d == 2 {
        '2'
    } else if d == 3 {
        '3'
    } else if d == 4 {
        '4'
    } else if d == 5 {
        '5'
    } else if d == 6 {
        '6'
    } else if d == 7 {
        '7'
    } else if d == 8 {
        '8'
    } else {
        '9'
    }
}

/// The decimal digits of `n`, most significant first, no leading zeros.
pub open spec fn dec_digits(n: nat) -> Seq<char>
    decreases n,
{
    if n < 10 {
        seq![digit_char(n)]
    } else {
        dec_digits(n / 10).push(digit_char(n % 10))
    }
}

/// The value of a digit sequence read in base ten.
pub open spec fn val10(s: Seq<char>) -> nat
    decreases s.len(),
{
    if s.len() == 0 {
        0
    } else {
        val10(s.drop_last()) * 10 + digit_val(s.last())
    }
}

/// Every character is a decimal digit.
pub open spec fn all_digits(s: Seq<char>) -> bool {
    forall|i: int| 0 <= i < s.len() ==> is_digit(#[trigger] s[i])
}

/// A nonempty digit sequence without a leading zero.
pub open spec fn canonical_digits(s: Seq<char>) -> bool {
    s.len() > 0 && all_digits(s) && (s.len() > 1 ==> s[0] != '0')
}

/// The serialized form of one entry: token, space, decimal count.
pub open spec fn entry_line(t: Seq<char>, c: u64) -> Seq<char> {
    t + seq![' '] + dec_digits(c as nat)
}

/// A line is the serialized form of the valid entry `(t, c)`.
pub open spec fn line_parses(l: Seq<char>, t: Seq<char>, c: u64) -> bool {
    valid_token(t) && c >= 1 && l == entry_line(t, c)
}

/// A digit's character has that digit's value, and is a digit.
proof fn lemma_digit_char_val(d: nat)
    requires
        d < 10,
    ensures
        digit_val(digit_char(d)) == d,
        is_digit(digit_char(d)),
        d >= 1 ==> digit_char(d) != '0',
{
    if d == 0 {
        assert(digit_char(d) == '0');
    } else if d == 1 {
        assert(digit_char(d) == '1');
    } else if d == 2 {
        assert(digit_char(d) == '2');
    } else if d == 3 {
        assert(digit_char(d) == '3');
    } else if d == 4 {
        assert(digit_char(d) == '4');
    } else if d == 5 {
        assert(digit_char(d) == '5');
    } else if d == 6 {
        assert(digit_char(d) == '6');
    } else if d == 7 {
        assert(digit_char(d) == '7');
    } else if d == 8 {
        assert(digit_char(d) == '8');
    } else {
        assert(digit_char(d) == '9');
    }
}

/// A digit character is the character of its value.
proof fn lemma_digit_val_char(c: char)
    requires
        is_digit(c),
    ensures
        digit_val(c) < 10,
        digit_char(digit_val(c)) == c,
        c != '0' ==> digit_val(c) >= 1,
{
    let d = digit_val(c);
    if d == 0 {
        assert(c as u32 == 0x30);
        assert(c == '0');
    } else if d == 1 {
        assert(c == '1');
    } else if d == 2 {
        assert(c == '2');
    } else if d == 3 {
        assert(c == '3');
    } else if d == 4 {
        assert(c == '4');
    } else if d == 5 {
        assert(c == '5');
    } else if d == 6 {
        assert(c == '6');
    } else if d == 7 {
        assert(c == '7');
    } else if d == 8 {
        assert(c == '8');
    } else {
        assert(c == '9');
    }
}

/// The decimal digits of `n` are canonical and read back as `n`.
pub proof fn lemma_dec_digits(n: nat)
    ensures
        dec_digits(n).len() > 0,
        all_digits(dec_digits(n)),
        canonical_digits(dec_digits(n)),
        val10(dec_digits(n)) == n,
        n >= 1 ==> dec_digits(n)[0] != '0',
    decreases n,
{
    if n < 10 {
        let s = dec_digits(n);
        lemma_digit_char_val(n);
        assert(s =~= seq![digit_char(n)]);
        assert(s.drop_last() =~= Seq::<char>::empty());
        assert(s.len() == 1);
        assert(s.last() == digit_char(n));
        assert(val10(s.drop_last()) == 0);
        assert(val10(s) == digit_val(digit_char(n)));
    } else {
        lemma_dec_digits(n / 10);
        lemma_digit_char_val(n % 10);
        let s = dec_digits(n);
        assert(s =~= dec_digits(n / 10).push(digit_char(n % 10)));
        assert(s.drop_last() =~= dec_digits(n / 10));
        assert(val10(s) == (n / 10) * 10 + digit_val(digit_char(n % 10)));
        assert((n / 10) * 10 + n % 10 == n);
        assert(s[0] == dec_digits(n / 10)[0]);
    }
}

/// A digit run starting with a nonzero digit has a positive value.
proof fn lemma_val10_pos(s: Seq<char>)
    requires
        all_digits(s),
        s.len() >= 1,
        s[0] != '0',
    ensures
        val10(s) >= 1,
        s.len() > 1 ==> val10(s) >= 10,
    decreases s.len(),
{
    if s.len() == 1 {
        lemma_digit_val_char(s[0]);
        assert(s.drop_last() =~= Seq::<char>::empty());
        assert(val10(s) == digit_val(s[0]));
    } else {
        assert(s.drop_last()[0] == s[0]);
        lemma_val10_pos(s.drop_last());
        assert(val10(s) == val10(s.drop_last()) * 10 + digit_val(s.last()));
    }
}

/// Canonical digits are exactly the decimal form of their value.
pub proof fn lemma_canonical_digits_unique(s: Seq<char>)
    requires
        canonical_digits(s),
    ensures
        s == dec_digits(val10(s)),
    decreases s.len(),
{
    if s.len() == 1 {
        assert(s.drop_last() =~= Seq::<char>::empty());
        assert(s.last() == s[0]);
        assert(val10(s.drop_last()) == 0);
        assert(val10(s) == digit_val(s[0]));
        lemma_digit_val_char(s[0]);
        assert(s =~= dec_digits(val10(s)));
    } else {
        let p = s.drop_last();
        assert(p[0] == s[0]);
        assert(canonical_digits(p));
        lemma_val10_pos(p);
        lemma_canonical_digits_unique(p);
        let v = val10(s);
        let vp = val10(p);
        let d = digit_val(s.last());
        assert(v == vp * 10 + d);
        assert(d < 10);
        assert(v / 10 == vp && v % 10 == d) by (nonlinear_arith)
            requires
                v == vp * 10 + d,
                0 <= d < 10,
                vp >= 0,
        ;
        assert(v >= 10);
        lemma_digit_val_char(s.last());
        assert(digit_char(d) == s.last());
        assert(s =~= dec_digits(v / 10).push(digit_char(v % 10)));
    }
}

/// Extending a digit run never lowers its value.
proof fn lemma_val10_prefix(s: Seq<char>, i: int)
    requires
        all_digits(s),
        0 <= i <= s.len(),
    ensures
        val10(s.subrange(0, i)) <= val10(s),
    decreases s.len(),
{
    if i == s.len() {
        assert(s.subrange(0, i) =~= s);
    } else {
        let p = s.drop_last();
        assert(p.subrange(0, i) =~= s.subrange(0, i));
        lemma_val10_prefix(p, i);
        assert(val10(s) == val10(p) * 10 + digit_val(s.last()));
        assert(val10(p) * 10 >= val10(p));
    }
}

/// In a serialized entry line the first space sits exactly after the token,
/// splitting it into the token and the count's digits.
proof fn lemma_line_decomp(l: Seq<char>, t: Seq<char>, c: u64, sp: int)
    requires
        l == entry_line(t, c),
        valid_token(t),
        0 <= sp < l.len(),
        l[sp] == ' ',
        forall|j: int| 0 <= j < sp ==> #[trigger] l[j] != ' ',
    ensures
        sp == t.len(),
        t == l.subrange(0, sp),
        dec_digits(c as nat) == l.subrange(sp + 1, l.len() as int),
{
    lemma_dec_digits(c as nat);
    let dd = dec_digits(c as nat);
    assert(l.len() == t.len() + 1 + dd.len());
    assert(l[t.len() as int] == ' ');
    if sp < t.len() {
        assert(l[sp] == t[sp]);
        assert(!is_space(t[sp]));
        assert(is_space(' '));
    }
    if sp > t.len() {
        assert(l[t.len() as int] != ' ');
    }
    assert(sp == t.len());
    assert(t =~= l.subrange(0, sp));
    assert(dd =~= l.subrange(sp + 1, l.len() as int));
}

/// Two entries with the same serialized line are the same entry.
pub proof fn lemma_entry_line_injective(t1: Seq<char>, c1: u64, t2: Seq<char>, c2: u64)
    requires
        valid_token(t1),
        valid_token(t2),
        entry_line(t1, c1) == entry_line(t2, c2),
    ensures
        t1 == t2,
        c1 == c2,
{
    let l = entry_line(t1, c1);
    lemma_dec_digits(c1 as nat);
    lemma_dec_digits(c2 as nat);
    assert(l[t1.len() as int] == ' ');
    assert forall|j: int| 0 <= j < t1.len() implies #[trigger] l[j] != ' ' by {
        assert(l[j] == t1[j]);
        assert(!is_space(t1[j]));
        assert(is_space(' '));
    }
    lemma_line_decomp(l, t2, c2, t1.len() as int);
    assert(t1 =~= l.subrange(0, t1.len() as int));
    assert(dec_digits(c1 as nat) =~= l.subrange(t1.len() as int + 1, l.len() as int));
    assert(val10(dec_digits(c1 as nat)) == val10(dec_digits(c2 as nat)));
}

/// Two well-formed maps with the same serialized lines are the same map.
pub proof fn lemma_lines_determine_map(fm1: FrequencyMap, fm2: FrequencyMap)
    requires
        fm1.wf(),
        fm2.wf(),
        fm1.view_entries().len() == fm2.view_entries().len(),
        forall|i: int|
            0 <= i < fm1.view_entries().len() ==> entry_line(
                (#[trigger] fm1.view_entries()[i]).0,
                fm1.view_entries()[i].1,
            ) == entry_line((#[trigger] fm2.view_entries()[i]).0, fm2.view_entries()[i].1),
    ensures
        fm1.view_entries() == fm2.view_entries(),
        fm1.as_map() == fm2.as_map(),
{
    assert forall|i: int| 0 <= i < fm1.view_entries().len() implies #[trigger] fm1.view_entries()[i]
        == fm2.view_entries()[i] by {
        lemma_entry_line_injective(
            fm1.view_entries()[i].0,
            fm1.view_entries()[i].1,
            fm2.view_entries()[i].0,
            fm2.view_entries()[i].1,
        );
    }
    assert(fm1.view_entries() =~= fm2.view_entries());
}

/// The decimal digit `d` as a string slice.
fn digit_str(d: u64) -> (r: &'static str)
    requires
        d < 10,
    ensures
        r@ == seq![digit_char(d as nat)],
{
    if d == 0 {
        proof {
            reveal_strlit("0");
        }
        let r = "0";
        proof {
            assert(r@ =~= seq![digit_char(d as nat)]);
        }
        r
    } else if d == 1 {
        proof {
            reveal_strlit("1");
        }
        let r = "1";
        proof {
            assert(r@ =~= seq![digit_char(d as nat)]);
        }
        r
    } else if d == 2 {
        proof {
            reveal_strlit("2");
        }
        let r = "2";
        proof {
            assert(r@ =~= seq![digit_char(d as nat)]);
        }
        r
    } else if d == 3 {
        proof {
            reveal_strlit("3");
        }
        let r = "3";
        proof {
            assert(r@ =~= seq![digit_char(d as nat)]);
        }
        r
    } else if d == 4 {
        proof {
            reveal_strlit("4");
        }
        let r = "4";
        proof {
            assert(r@ =~= seq![digit_char(d as nat)]);
        }
        r
    } else if d == 5 {
        proof {
            reveal_strlit("5");
        }
        let r = "5";
        proof {
            assert(r@ =~= seq![digit_char(d as nat)]);
        }
        r
    } else if d == 6 {
        proof {
            reveal_strlit("6");
        }
        let r = "6";
        proof {
            assert(r@ =~= seq![digit_char(d as nat)]);
        }
        r
    } else if d == 7 {
        proof {
            reveal_strlit("7");
        }
        let r = "7";
        proof {
            assert(r@ =~= seq![digit_char(d as nat)]);
        }
        r
    } else if d == 8 {
        proof {
            reveal_strlit("8");
        }
        let r = "8";
        proof {
            assert(r@ =~= seq![digit_char(d as nat)]);
        }
        r
    } else {
        proof {
            reveal_strlit("9");
        }
        let r = "9";
        proof {
            assert(r@ =~= seq![digit_char(d as nat)]);
        }
        r
    }
}

/// `n` in decimal.
fn u64_to_dec(n: u64) -> (r: String)
    ensures
        r@ == dec_digits(n as nat),
    decreases n,
{
    if n < 10 {
        digit_str(n).to_owned()
    } else {
        let mut s = u64_to_dec(n / 10);
        s.append(digit_str(n % 10));
        proof {
            assert(s@ =~= dec_digits((n / 10) as nat).push(digit_char((n % 10) as nat)));
        }
        s
    }
}

/// One serialized entry line.
fn to_line(token: &String, count: u64) -> (r: String)
    ensures
        r@ == entry_line(token@, count),
{
    let mut s = token.clone();
    proof {
        reveal_strlit(" ");
    }
    s.append(" ");
    let d = u64_to_dec(count);
    s.append(d.as_str());
    proof {
        assert(" "@ =~= seq![' ']);
        assert(s@ =~= entry_line(token@, count));
    }
    s
}

/// Serialize a frequency map, one `<token> <count>` line per entry.
pub fn to_lines(fm: &FrequencyMap) -> (r: Vec<String>)
    requires
        fm.wf(),
    ensures
        r@.len() == fm.view_entries().len(),
        forall|i: int|
            0 <= i < r@.len() ==> (#[trigger] r@[i])@ == entry_line(
                fm.view_entries()[i].0,
                fm.view_entries()[i].1,
            ),
{
    let mut r: Vec<String> = Vec::new();
    let mut i: usize = 0;
    let n = fm.entries.len();
    while i < n
        invariant
            n == fm.view_entries().len(),
            n == fm.entries@.len(),
            i <= n,
            r@.len() == i,
            forall|j: int|
                0 <= j < i ==> (#[trigger] r@[j])@ == entry_line(
                    fm.view_entries()[j].0,
                    fm.view_entries()[j].1,
                ),
        decreases n - i,
    {
        let line = to_line(&fm.entries[i].token, fm.entries[i].count);
        proof {
            assert(fm.view_entries()[i as int] == (fm.entries@[i as int].token@,
            fm.entries@[i as int].count));
        }
        r.push(line);
        i += 1;
    }
    r
}

/// Parse one `<token> <count>` line.
///
/// Returns the entry exactly when the line is the serialized form of a
/// valid token with a positive count, and nothing otherwise.
#[verifier::rlimit(30)]
pub fn parse_line(line: &str) -> (r: Option<Entry>)
    ensures
        match r {
            Some(e) => line_parses(line@, e.token@, e.count) && valid_token(e.token@) && e.count
                >= 1,
            None => forall|t: Seq<char>, c: u64| !line_parses(line@, t, c),
        },
{
    let n = line.unicode_len();
    // find the first plain space, checking for other whitespace on the way
    let mut sp: usize = 0;
    let mut found: bool = false;
    while sp < n && !found
        invariant
            n == line@.len(),
            sp <= n,
            found ==> sp < n && line@[sp as int] == ' ',
            forall|j: int| 0 <= j < sp ==> #[trigger] line@[j] != ' ',
            forall|j: int| 0 <= j < sp ==> !is_space(#[trigger] line@[j]),
        decreases n - sp, (if found { 0int } else { 1int }),
    {
        let c = line.get_char(sp);
        if c == ' ' {
            found = true;
        } else {
            if char_is_space(c) {
                // whitespace other than a plain space: no valid entry line
                proof {
                    assert forall|t: Seq<char>, c2: u64| !line_parses(line@, t, c2) by {
                        if line_parses(line@, t, c2) {
                            lemma_dec_digits(c2 as nat);
                            assert(line@[t.len() as int] == ' ');
                            assert(t.len() >= sp + 1);
                            assert(line@[sp as int] == t[sp as int]);
                            assert(!is_space(t[sp as int]));
                        }
                    }
                }
                return None;
            }
            sp += 1;
        }
    }
    if !found {
        // no space at all: not an entry line
        proof {
            assert forall|t: Seq<char>, c2: u64| !line_parses(line@, t, c2) by {
                if line_parses(line@, t, c2) {
                    lemma_dec_digits(c2 as nat);
                    assert(line@[t.len() as int] == ' ');
                }
            }
        }
        return None;
    }
    if sp == 0 {
        // empty token
        proof {
            assert forall|t: Seq<char>, c2: u64| !line_parses(line@, t, c2) by {
                if line_parses(line@, t, c2) {
                    lemma_dec_digits(c2 as nat);
                    assert(t.len() > 0);
                    assert(line@[0] == t[0]);
                    assert(!is_space(t[0]));
                    assert(is_space(' '));
                }
            }
        }
        return None;
    }
    proof {
        assert(is_space(' '));
    }
    if sp + 1 >= n {
        // no digits after the space
        proof {
            assert forall|t: Seq<char>, c2: u64| !line_parses(line@, t, c2) by {
                if line_parses(line@, t, c2) {
                    lemma_line_decomp(line@, t, c2, sp as int);
                    lemma_dec_digits(c2 as nat);
                }
            }
        }
        return None;
    }
    let ghost dd = line@.subrange(sp + 1, n as int);
    // reject a leading zero on a multi-digit count
    let c0 = line.get_char(sp + 1);
    if c0 == '0' && sp + 2 < n {
        proof {
            assert forall|t: Seq<char>, c2: u64| !line_parses(line@, t, c2) by {
                if line_parses(line@, t, c2) {
                    lemma_line_decomp(line@, t, c2, sp as int);
                    lemma_dec_digits(c2 as nat);
                    assert(dec_digits(c2 as nat)[0] == line@[sp + 1]);
                }
            }
        }
        return None;
    }
    // read the digits, watching for overflow
    let mut acc: u64 = 0;
    let mut i: usize = sp + 1;
    while i < n
        invariant
            n == line@.len(),
            0 < sp,
            sp + 1 < n,
            sp + 1 <= i <= n,
            line@[sp as int] == ' ',
            forall|j: int| 0 <= j < sp ==> #[trigger] line@[j] != ' ',
            forall|j: int| 0 <= j < sp ==> !is_space(#[trigger] line@[j]),
            dd == line@.subrange(sp + 1, n as int),
            forall|j: int| 0 <= j < i - sp - 1 ==> is_digit(#[trigger] dd[j]),
            acc == val10(dd.subrange(0, i - sp - 1)),
        decreases n - i,
    {
        let c = line.get_char(i);
        let u = c as u32;
        if u < 0x30 || u > 0x39 {
            // a non-digit where the count should be
            proof {
                assert forall|t: Seq<char>, c2: u64| !line_parses(line@, t, c2) by {
                    if line_parses(line@, t, c2) {
                        lemma_line_decomp(line@, t, c2, sp as int);
                        lemma_dec_digits(c2 as nat);
                        assert(dd[i - sp - 1] == c);
                    }
                }
            }
            return None;
        }
        let d = ((u - 0x30) as u64);
        if acc > (u64::MAX - d) / 10 {
            // the count does not fit in 64 bits
            proof {
                let pre = dd.subrange(0, i - sp - 1 + 1);
                assert(pre.drop_last() =~= dd.subrange(0, i - sp - 1));
                assert(pre.last() == dd[i - sp - 1]);
                assert(dd[i - sp - 1] == line@[i as int]);
                assert(val10(pre) == acc * 10 + d);
                assert(val10(pre) > u64::MAX);
                assert forall|t: Seq<char>, c2: u64| !line_parses(line@, t, c2) by {
                    if line_parses(line@, t, c2) {
                        lemma_line_decomp(line@, t, c2, sp as int);
                        lemma_dec_digits(c2 as nat);
                        assert(all_digits(dd));
                        lemma_val10_prefix(dd, i - sp - 1 + 1);
                        assert(val10(dd) == c2 as nat);
                    }
                }
            }
            return None;
        }
        proof {
            let pre = dd.subrange(0, i - sp - 1 + 1);
            assert(pre.drop_last() =~= dd.subrange(0, i - sp - 1));
            assert(pre.last() == dd[i - sp - 1]);
            assert(dd[i - sp - 1] == line@[i as int]);
            assert(digit_val(line@[i as int]) == d);
        }
        acc = acc * 10 + d;
        i += 1;
    }
    proof {
        assert(dd.subrange(0, n - sp - 1) =~= dd);
        assert(all_digits(dd));
        assert(canonical_digits(dd));
    }
    if acc == 0 {
        // a zero count never serializes from a frequency map
        proof {
            assert forall|t: Seq<char>, c2: u64| !line_parses(line@, t, c2) by {
                if line_parses(line@, t, c2) {
                    lemma_line_decomp(line@, t, c2, sp as int);
                    lemma_dec_digits(c2 as nat);
                    assert(val10(dd) == c2 as nat);
                }
            }
        }
        return None;
    }
    let token = line.substring_char(0, sp).to_owned();
    proof {
        lemma_canonical_digits_unique(dd);
        assert(dd == dec_digits(acc as nat));
        assert(valid_token(token@)) by {
            assert(token@ =~= line@.subrange(0, sp as int));
        }
        assert(line@ =~= token@ + seq![' '] + dec_digits(acc as nat));
    }
    Some(Entry { token, count: acc })
}

/// `token` already occurs among the entries.
fn contains_token(v: &Vec<Entry>, token: &String) -> (r: bool)
    ensures
        r == has_key(entries_view(v@), token@),
{
    let mut i: usize = 0;
    while i < v.len()
        invariant
            i <= v@.len(),
            forall|j: int| 0 <= j < i ==> (#[trigger] entries_view(v@)[j]).0 != token@,
        decreases v@.len() - i,
    {
        if v[i].token == *token {
            proof {
                assert(entries_view(v@)[i as int].0 == token@);
            }
            return true;
        }
        i += 1;
    }
    false
}

/// Parse a whole serialized vocabulary back into a frequency map.
///
/// Succeeds exactly when every line parses and no token repeats.
pub fn from_lines(lines: &Vec<String>) -> (r: Option<FrequencyMap>)
    ensures
        match r {
            Some(fm) => {
                &&& fm.wf()
                &&& fm.view_entries().len() == lines@.len()
                &&& forall|i: int|
                    0 <= i < lines@.len() ==> line_parses(
                        (#[trigger] lines@[i])@,
                        fm.view_entries()[i].0,
                        fm.view_entries()[i].1,
                    )
            },
            None => (exists|i: int|
                0 <= i < lines@.len() && forall|t: Seq<char>, c: u64| !line_parses(
                    (#[trigger] lines@[i])@,
                    t,
                    c,
                )) || (exists|i: int, j: int, t: Seq<char>, ci: u64, cj: u64|
                0 <= i < j < lines@.len() && #[trigger] line_parses(lines@[i]@, t, ci)
                    && #[trigger] line_parses(lines@[j]@, t, cj)),
        },
{
    let mut out: Vec<Entry> = Vec::new();
    let mut i: usize = 0;
    while i < lines.len()
        invariant
            i <= lines@.len(),
            entries_view(out@).len() == i,
            forall|j: int|
                0 <= j < i ==> line_parses(
                    (#[trigger] lines@[j])@,
                    entries_view(out@)[j].0,
                    entries_view(out@)[j].1,
                ),
            distinct_keys(entries_view(out@)),
        decreases lines@.len() - i,
    {
        let ghost ov = entries_view(out@);
        match parse_line(lines[i].as_str()) {
            None => {
                return None;
            },
            Some(e) => {
                if contains_token(&out, &e.token) {
                    proof {
                        let j = choose|j: int|
                            0 <= j < ov.len() && (#[trigger] ov[j]).0 == e.token@;
                        assert(line_parses(lines@[j]@, ov[j].0, ov[j].1));
                        assert(line_parses(lines@[i as int]@, e.token@, e.count));
                        assert(0 <= j && j < i as int && i < lines@.len() && line_parses(
                            lines@[j]@,
                            ov[j].0,
                            ov[j].1,
                        ) && line_parses(lines@[i as int]@, ov[j].0, e.count));
                    }
                    return None;
                }
                let ghost tv = e.token@;
                let ghost cv = e.count;
                out.push(e);
                proof {
                    let ov1 = entries_view(out@);
                    assert(ov1 =~= ov.push((tv, cv)));
                    assert forall|j1: int, j2: int| 0 <= j1 < j2 < ov1.len() implies (
                    #[trigger] ov1[j1]).0 != (#[trigger] ov1[j2]).0 by {
                        if j2 < ov.len() {
                            assert(ov[j1].0 != ov[j2].0);
                        } else {
                            assert(ov1[j2].0 == tv);
                            assert(ov1[j1] == ov[j1]);
                            assert(has_key(ov, ov[j1].0));
                        }
                    }
                }
            },
        }
        i += 1;
    }
    let fm = FrequencyMap { entries: out };
    proof {
        assert forall|j: int| 0 <= j < fm.view_entries().len() implies (
        #[trigger] fm.view_entries()[j]).1 >= 1 && valid_token(fm.view_entries()[j].0) by {
            assert(line_parses(lines@[j]@, fm.view_entries()[j].0, fm.view_entries()[j].1));
        }
    }
    Some(fm)
}

} // verus!
