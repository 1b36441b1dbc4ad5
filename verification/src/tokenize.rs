//! Splitting an input line into whitespace-delimited tokens.
//!
//! A token is a maximal run of non-whitespace characters; runs of whitespace
//! separate tokens, and leading or trailing whitespace produces no empty
//! tokens.

use vstd::prelude::*;
use crate::chars::is_ws;
use crate::chars::is_ws_char;
use vstd::string::StrSliceExecFns;

verus! {

/// Index of the first whitespace character of `s`, or `s.len()` if none.
pub open spec fn first_ws(s: Seq<char>) -> int
    decreases s.len(),
{
    if s.len() == 0 {
        0
    } else if is_ws(s[0]) {
        0
    } else {
        1 + first_ws(s.skip(1))
    }
}

proof fn lemma_first_ws_bounds(s: Seq<char>)
    ensures
        0 <= first_ws(s) <= s.len(),
        forall|m: int| 0 <= m < first_ws(s) ==> !is_ws(#[trigger] s[m]),
        first_ws(s) < s.len() ==> is_ws(s[first_ws(s)]),
    decreases s.len(),
{
    if s.len() == 0 {
    } else if is_ws(s[0]) {
    } else {
        lemma_first_ws_bounds(s.skip(1));
        assert forall|m: int| 0 <= m < first_ws(s) implies !is_ws(#[trigger] s[m]) by {
            if m >= 1 {
                assert(s.skip(1)[m - 1] == s[m]);
            }
        }
        if first_ws(s) < s.len() {
            assert(s.skip(1)[first_ws(s) - 1] == s[first_ws(s)]);
        }
    }
}

proof fn lemma_first_ws_is(s: Seq<char>, k: int)
    requires
        0 <= k <= s.len(),
        forall|m: int| 0 <= m < k ==> !is_ws(#[trigger] s[m]),
        k < s.len() ==> is_ws(s[k]),
    ensures
        first_ws(s) == k,
    decreases s.len(),
{
    if k == 0 {
    } else {
        assert(!is_ws(s[0]));
        assert forall|m: int| 0 <= m < k - 1 implies !is_ws(#[trigger] s.skip(1)[m]) by {
            assert(s.skip(1)[m] == s[m + 1]);
        }
        if k - 1 < s.skip(1).len() {
            assert(s.skip(1)[k - 1] == s[k]);
        }
        lemma_first_ws_is(s.skip(1), k - 1);
    }
}

/// The whitespace-delimited tokens of `s`, in order.
pub open spec fn tokens(s: Seq<char>) -> Seq<Seq<char>>
    decreases s.len(),
    via tokens_decreases
{
    if s.len() == 0 {
        Seq::empty()
    } else if is_ws(s[0]) {
        tokens(s.skip(1))
    } else {
        seq![s.take(first_ws(s))] + tokens(s.skip(first_ws(s)))
    }
}

#[via_fn]
proof fn tokens_decreases(s: Seq<char>) {
    lemma_first_ws_bounds(s);
}

/// Skipping a whitespace character does not change the tokens.
proof fn lemma_tokens_ws_skip(s: Seq<char>, i: int)
    requires
        0 <= i < s.len(),
        is_ws(s[i]),
    ensures
        tokens(s.skip(i)) == tokens(s.skip(i + 1)),
{
    assert(s.skip(i)[0] == s[i]);
    assert(s.skip(i).skip(1) =~= s.skip(i + 1));
}

/// A maximal non-whitespace run `[i, j)` is the next token.
proof fn lemma_tokens_token(s: Seq<char>, i: int, j: int)
    requires
        0 <= i < j <= s.len(),
        forall|m: int| i <= m < j ==> !is_ws(#[trigger] s[m]),
        j < s.len() ==> is_ws(s[j]),
    ensures
        tokens(s.skip(i)) == seq![s.subrange(i, j)] + tokens(s.skip(j)),
{
    let t = s.skip(i);
    assert(t[0] == s[i]);
    assert forall|m: int| 0 <= m < j - i implies !is_ws(#[trigger] t[m]) by {
        assert(t[m] == s[i + m]);
    }
    if j - i < t.len() {
        assert(t[j - i] == s[j]);
    }
    lemma_first_ws_is(t, j - i);
    assert(t.take(j - i) =~= s.subrange(i, j));
    assert(t.skip(j - i) =~= s.skip(j));
}

/// A line holding only whitespace has no tokens.
pub proof fn lemma_tokens_all_ws(s: Seq<char>)
    requires
        forall|m: int| 0 <= m < s.len() ==> is_ws(#[trigger] s[m]),
    ensures
        tokens(s) == Seq::<Seq<char>>::empty(),
    decreases s.len(),
{
    if s.len() > 0 {
        assert forall|m: int| 0 <= m < s.skip(1).len() implies is_ws(#[trigger] s.skip(1)[m]) by {
            assert(s.skip(1)[m] == s[m + 1]);
        }
        lemma_tokens_all_ws(s.skip(1));
    }
}

/// Split a line into its whitespace-delimited tokens.
#[verifier::loop_isolation(false)]
pub fn parse_line(line: &str) -> (r: Vec<String>)
    ensures
        r.deep_view() == tokens(line@),
{
    let n = line.unicode_len();
    let mut out: Vec<String> = Vec::new();
    let mut i: usize = 0;
    proof {
        assert(line@.skip(0) =~= line@);
        assert(out.deep_view() + tokens(line@) =~= tokens(line@));
    }
    while i < n
        invariant
            0 <= i <= n,
            tokens(line@) == out.deep_view() + tokens(line@.skip(i as int)),
        decreases n - i,
    {
        let c = line.get_char(i);
        if is_ws_char(c) {
            proof {
                lemma_tokens_ws_skip(line@, i as int);
            }
            i += 1;
        } else {
            let start = i;
            let mut j: usize = i;
            while j < n && !is_ws_char(line.get_char(j))
                invariant
                    i <= j <= n,
                    forall|m: int| i <= m < j ==> !is_ws(#[trigger] line@[m]),
                decreases n - j,
            {
                j += 1;
            }
            let ghost out0 = out.deep_view();
            let tok = line.substring_char(start, j);
            out.push(tok.to_owned());
            proof {
                lemma_tokens_token(line@, i as int, j as int);
                assert(out.deep_view() =~= out0.push(line@.subrange(i as int, j as int)));
                assert(out.deep_view() + tokens(line@.skip(j as int)) =~= out0 + (seq![
                    line@.subrange(i as int, j as int),
                ] + tokens(line@.skip(j as int))));
            }
            i = j;
        }
    }
    proof {
        assert(line@.skip(n as int) =~= Seq::<char>::empty());
        assert(tokens(line@) =~= out.deep_view());
    }
    out
}

} // verus!
