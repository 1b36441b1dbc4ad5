//! The field-specification grammar.
//!
//! A specification is a comma-separated list of terms; a term is either a
//! bare non-negative index (`digit+`) or an inclusive range
//! (`digit+ '-' digit+`). The whole string must be consumed, the list must
//! have at least one term, every value must fit in `usize`, and a range's
//! lower bound must not exceed its upper bound.

use vstd::prelude::*;
use crate::chars::{is_digit, digit_val, digit_of};
use crate::ranges::{covers, normalized, ranges_wf, sort_and_merge_ranges};
use vstd::string::StrSliceExecFns;

verus! {

/// A non-empty, all-digit string.
pub open spec fn is_digits(t: Seq<char>) -> bool {
    t.len() > 0 && forall|m: int| 0 <= m < t.len() ==> is_digit(#[trigger] t[m])
}

/// The decimal value of a digit string.
pub open spec fn digits_val(t: Seq<char>) -> int
    decreases t.len(),
{
    if t.len() == 0 {
        0
    } else {
        digits_val(t.drop_last()) * 10 + digit_val(t.last())
    }
}

proof fn lemma_digits_val_step(t: Seq<char>, i: int)
    requires
        0 <= i < t.len(),
    ensures
        digits_val(t.take(i + 1)) == digits_val(t.take(i)) * 10 + digit_val(t[i]),
{
    assert(t.take(i + 1).drop_last() =~= t.take(i));
    assert(t.take(i + 1).last() == t[i]);
}

proof fn lemma_digits_val_nonneg(t: Seq<char>)
    requires
        forall|m: int| 0 <= m < t.len() ==> is_digit(#[trigger] t[m]),
    ensures
        digits_val(t) >= 0,
    decreases t.len(),
{
    if t.len() > 0 {
        assert forall|m: int| 0 <= m < t.drop_last().len() implies is_digit(
            #[trigger] t.drop_last()[m],
        ) by {
            assert(t.drop_last()[m] == t[m]);
        }
        lemma_digits_val_nonneg(t.drop_last());
    }
}

/// A digit string's value only grows as more digits are read.
proof fn lemma_digits_val_prefix_le(t: Seq<char>, j: int)
    requires
        forall|m: int| 0 <= m < t.len() ==> is_digit(#[trigger] t[m]),
        0 <= j <= t.len(),
    ensures
        digits_val(t.take(j)) <= digits_val(t),
    decreases t.len() - j,
{
    assert forall|m: int| 0 <= m < t.take(j).len() implies is_digit(#[trigger] t.take(j)[m]) by {
        assert(t.take(j)[m] == t[m]);
    }
    if j == t.len() {
        assert(t.take(j) =~= t);
    } else {
        lemma_digits_val_step(t, j);
        lemma_digits_val_nonneg(t.take(j));
        lemma_digits_val_prefix_le(t, j + 1);
    }
}

/// Parse a whole string as a non-negative decimal integer.
///
/// Succeeds exactly when the string is one or more digits and the value fits
/// in `usize`.
#[verifier::loop_isolation(false)]
pub fn parse_usize(s: &str) -> (r: Option<usize>)
    ensures
        r is Some <==> is_digits(s@) && digits_val(s@) <= usize::MAX,
        r matches Some(v) ==> v == digits_val(s@),
{
    let n = s.unicode_len();
    if n == 0 {
        return None;
    }
    let mut val: usize = 0;
    let mut i: usize = 0;
    proof {
        assert(s@.take(0) =~= Seq::<char>::empty());
    }
    while i < n
        invariant
            0 <= i <= n,
            forall|m: int| 0 <= m < i ==> is_digit(#[trigger] s@[m]),
            val == digits_val(s@.take(i as int)),
        decreases n - i,
    {
        let c = s.get_char(i);
        match digit_of(c) {
            None => {
                return None;
            },
            Some(d) => {
                proof {
                    lemma_digits_val_step(s@, i as int);
                }
                let step = match val.checked_mul(10) {
                    None => None,
                    Some(v10) => v10.checked_add(d as usize),
                };
                match step {
                    None => {
                        proof {
                            if is_digits(s@) {
                                lemma_digits_val_prefix_le(s@, i as int + 1);
                            }
                        }
                        return None;
                    },
                    Some(v) => {
                        val = v;
                    },
                }
            },
        }
        i += 1;
    }
    proof {
        assert(s@.take(n as int) =~= s@);
    }
    Some(val)
}

/// `t` splits at position `k` into `digit+ '-' digit+`.
pub open spec fn range_split_at(t: Seq<char>, k: int) -> bool {
    &&& 0 <= k < t.len()
    &&& t[k] == '-'
    &&& is_digits(t.take(k))
    &&& is_digits(t.skip(k + 1))
}

/// `t` has the shape of a range term.
pub open spec fn is_range_term(t: Seq<char>) -> bool {
    exists|k: int| range_split_at(t, k)
}

/// The bounds a term denotes: a bare index `n` stands for `(n, n)`, a range
/// term for its two values.
pub open spec fn term_bounds(t: Seq<char>) -> (int, int) {
    if is_digits(t) {
        (digits_val(t), digits_val(t))
    } else {
        let k = choose|k: int| range_split_at(t, k);
        (digits_val(t.take(k)), digits_val(t.skip(k + 1)))
    }
}

/// A term is valid when it is a bare index or a range, its bounds fit in
/// `usize`, and the lower bound does not exceed the upper one.
pub open spec fn valid_term(t: Seq<char>) -> bool {
    &&& is_digits(t) || is_range_term(t)
    &&& term_bounds(t).0 <= term_bounds(t).1
    &&& term_bounds(t).1 <= usize::MAX
    &&& term_bounds(t).0 <= usize::MAX
}

/// A term splits around a dash in at most one way: the digits on either side
/// admit no second dash.
proof fn lemma_range_split_unique(t: Seq<char>, k1: int, k2: int)
    requires
        range_split_at(t, k1),
        range_split_at(t, k2),
    ensures
        k1 == k2,
{
    if k1 < k2 {
        assert(t.take(k2)[k1] == t[k1]);
        assert(is_digit('-') == false);
    } else if k2 < k1 {
        assert(t.take(k1)[k2] == t[k2]);
        assert(is_digit('-') == false);
    }
}

/// Parse one term of the specification: either `digit+` or
/// `digit+ '-' digit+` with the bounds in order and fitting in `usize`.
#[verifier::loop_isolation(false)]
pub fn parse_term(s: &str) -> (r: Option<(usize, usize)>)
    ensures
        r is Some <==> valid_term(s@),
        r matches Some(p) ==> p.0 == term_bounds(s@).0 && p.1 == term_bounds(s@).1 && p.0 <= p.1,
{
    let n = s.unicode_len();
    let mut d: usize = 0;
    while d < n && s.get_char(d) != '-'
        invariant
            0 <= d <= n,
            forall|m: int| 0 <= m < d ==> #[trigger] s@[m] != '-',
        decreases n - d,
    {
        d += 1;
    }
    if d == n {
        // No dash: a bare index, or nothing.
        proof {
            if is_range_term(s@) {
                let k = choose|k: int| range_split_at(s@, k);
                assert(s@[k] == '-');
                assert(false);
            }
        }
        match parse_usize(s) {
            None => None,
            Some(v) => Some((v, v)),
        }
    } else {
        // A dash at `d`, the first one: the only possible range split.
        proof {
            assert(is_digit('-') == false);
            if is_digits(s@) {
                assert(is_digit(s@[d as int]));
                assert(false);
            }
        }
        let left = s.substring_char(0, d);
        let right = s.substring_char(d + 1, n);
        proof {
            assert(left@ =~= s@.take(d as int));
            assert(right@ =~= s@.skip(d as int + 1));
            if is_range_term(s@) {
                let k = choose|k: int| range_split_at(s@, k);
                if k < d {
                    assert(s@[k] == '-');
                } else if k > d {
                    assert(s@.take(k)[d as int] == s@[d as int]);
                }
                assert(k == d);
            }
        }
        let lo = match parse_usize(left) {
            None => {
                return None;
            },
            Some(v) => v,
        };
        let hi = match parse_usize(right) {
            None => {
                return None;
            },
            Some(v) => v,
        };
        if lo <= hi {
            proof {
                assert(range_split_at(s@, d as int));
                let k = choose|k: int| range_split_at(s@, k);
                lemma_range_split_unique(s@, k, d as int);
            }
            Some((lo, hi))
        } else {
            proof {
                if is_range_term(s@) {
                    let k = choose|k: int| range_split_at(s@, k);
                    lemma_range_split_unique(s@, k, d as int);
                }
            }
            None
        }
    }
}

/// Index of the first comma of `s`, or `s.len()` if none.
pub open spec fn first_comma(s: Seq<char>) -> int
    decreases s.len(),
{
    if s.len() == 0 {
        0
    } else if s[0] == ',' {
        0
    } else {
        1 + first_comma(s.skip(1))
    }
}

proof fn lemma_first_comma_bounds(s: Seq<char>)
    ensures
        0 <= first_comma(s) <= s.len(),
    decreases s.len(),
{
    if s.len() > 0 && s[0] != ',' {
        lemma_first_comma_bounds(s.skip(1));
    }
}

proof fn lemma_first_comma_is(s: Seq<char>, k: int)
    requires
        0 <= k <= s.len(),
        forall|m: int| 0 <= m < k ==> #[trigger] s[m] != ',',
        k < s.len() ==> s[k] == ',',
    ensures
        first_comma(s) == k,
    decreases s.len(),
{
    if k == 0 {
    } else {
        assert(s[0] != ',');
        assert forall|m: int| 0 <= m < k - 1 implies #[trigger] s.skip(1)[m] != ',' by {
            assert(s.skip(1)[m] == s[m + 1]);
        }
        if k - 1 < s.skip(1).len() {
            assert(s.skip(1)[k - 1] == s[k]);
        }
        lemma_first_comma_is(s.skip(1), k - 1);
    }
}

/// The comma-separated segments of `s`, in order. A string with no comma is
/// one segment; empty segments are kept.
pub open spec fn split_commas(s: Seq<char>) -> Seq<Seq<char>>
    decreases s.len(),
    via split_commas_decreases
{
    if first_comma(s) == s.len() {
        seq![s]
    } else {
        seq![s.take(first_comma(s))] + split_commas(s.skip(first_comma(s) + 1))
    }
}

#[via_fn]
proof fn split_commas_decreases(s: Seq<char>) {
    lemma_first_comma_bounds(s);
}

/// If `s` has no comma at or after `i`, the rest is one segment.
proof fn lemma_split_commas_last(s: Seq<char>, i: int)
    requires
        0 <= i <= s.len(),
        forall|m: int| i <= m < s.len() ==> #[trigger] s[m] != ',',
    ensures
        split_commas(s.skip(i)) == seq![s.subrange(i, s.len() as int)],
{
    let t = s.skip(i);
    assert forall|m: int| 0 <= m < t.len() implies #[trigger] t[m] != ',' by {
        assert(t[m] == s[i + m]);
    }
    lemma_first_comma_is(t, t.len() as int);
    assert(t =~= s.subrange(i, s.len() as int));
}

/// If the first comma at or after `i` is at `j`, the next segment is
/// `s[i..j]` and the remaining segments are those after the comma.
proof fn lemma_split_commas_mid(s: Seq<char>, i: int, j: int)
    requires
        0 <= i <= j < s.len(),
        s[j] == ',',
        forall|m: int| i <= m < j ==> #[trigger] s[m] != ',',
    ensures
        split_commas(s.skip(i)) == seq![s.subrange(i, j)] + split_commas(s.skip(j + 1)),
{
    let t = s.skip(i);
    assert forall|m: int| 0 <= m < j - i implies #[trigger] t[m] != ',' by {
        assert(t[m] == s[i + m]);
    }
    assert(t[j - i] == s[j]);
    lemma_first_comma_is(t, j - i);
    assert(t.take(j - i) =~= s.subrange(i, j));
    assert(t.skip(j - i + 1) =~= s.skip(j + 1));
}

/// Every comma-separated segment of the specification is a valid term.
pub open spec fn valid_spec(s: Seq<char>) -> bool {
    forall|i: int| 0 <= i < split_commas(s).len() ==> valid_term(#[trigger] split_commas(s)[i])
}

/// The raw ranges the specification's terms denote, in the user's order,
/// before normalization.
pub open spec fn spec_ranges(s: Seq<char>) -> Seq<(usize, usize)> {
    split_commas(s).map(|i: int, t: Seq<char>| (term_bounds(t).0 as usize, term_bounds(t).1 as usize))
}

/// Parse a whole field specification and normalize it.
///
/// Succeeds exactly when every comma-separated segment is a valid term; the
/// result is then the unique normalized range list covering the same field
/// indices as the terms written by the user.
pub fn parse_fields(s: &str) -> (r: Option<Vec<(usize, usize)>>)
    ensures
        r is Some <==> valid_spec(s@),
        r matches Some(v) ==> normalized(v@) && (forall|k: int|
            covers(v@, k) <==> covers(spec_ranges(s@), k)),
{
    let ghost segs = split_commas(s@);
    let n = s.unicode_len();
    let mut terms: Vec<(usize, usize)> = Vec::new();
    let mut start: usize = 0;
    proof {
        assert(s@.skip(0) =~= s@);
    }
    while start <= n
        invariant_except_break
            split_commas(s@.skip(start as int)) =~= segs.skip(terms@.len() as int),
        invariant
            n == s@.len(),
            segs == split_commas(s@),
            0 <= start <= n,
            terms@.len() <= segs.len(),
            forall|i: int| 0 <= i < terms@.len() ==> valid_term(#[trigger] segs[i]),
            forall|i: int| 0 <= i < terms@.len() ==> (#[trigger] terms@[i]).0 == term_bounds(
                segs[i],
            ).0 && terms@[i].1 == term_bounds(segs[i]).1 && terms@[i].0 <= terms@[i].1,
        ensures
            terms@.len() == segs.len(),
        decreases n - start,
    {
        let ghost done = terms@.len() as int;
        let mut j: usize = start;
        while j < n && s.get_char(j) != ','
            invariant
                n == s@.len(),
                start <= j <= n,
                forall|m: int| start <= m < j ==> #[trigger] s@[m] != ',',
            decreases n - j,
        {
            j += 1;
        }
        proof {
            if j < n {
                lemma_split_commas_mid(s@, start as int, j as int);
            } else {
                lemma_split_commas_last(s@, start as int);
            }
            assert(0 <= done <= segs.len());
            assert(segs.skip(done) == split_commas(s@.skip(start as int)));
            assert(segs.skip(done).len() >= 1);
            assert(done < segs.len());
            assert(segs.skip(done)[0] == segs[done]);
            assert(segs.skip(done)[0] == s@.subrange(start as int, j as int));
            assert(segs[done] == s@.subrange(start as int, j as int));
        }
        let seg = s.substring_char(start, j);
        match parse_term(seg) {
            None => {
                proof {
                    assert(!valid_term(segs[done]));
                }
                return None;
            },
            Some(p) => {
                terms.push(p);
            },
        }
        if j < n {
            proof {
                let rest = split_commas(s@.skip(j as int + 1));
                assert(segs.skip(done) =~= seq![s@.subrange(start as int, j as int)] + rest);
                assert forall|m: int| 0 <= m < segs.skip(done + 1).len() implies #[trigger] segs.skip(
                    done + 1,
                )[m] == rest[m] by {
                    assert(segs.skip(done + 1)[m] == segs[done + 1 + m]);
                    assert(segs.skip(done)[m + 1] == segs[done + 1 + m]);
                    assert(segs.skip(done)[m + 1] == rest[m]);
                }
                assert(segs.skip(done + 1) =~= rest);
            }
            start = j + 1;
        } else {
            proof {
                assert(segs.skip(done).len() == 1);
                assert(terms@.len() == segs.len());
            }
            break;
        }
    }
    proof {
        assert(terms@ =~= spec_ranges(s@));
        assert(ranges_wf(terms@));
    }
    let merged = sort_and_merge_ranges(terms);
    Some(merged)
}

} // verus!
