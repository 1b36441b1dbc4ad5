//! Field ranges and their normalization.
//!
//! A field specification is a list of inclusive index ranges `(lo, hi)` with
//! `lo <= hi`. Normalization sorts the ranges by lower bound and merges any
//! that overlap or are adjacent, producing the unique minimal ascending list
//! that covers the same indices.

use vstd::prelude::*;

verus! {

/// Every range is well-formed: lower bound at most upper bound.
pub open spec fn ranges_wf(rs: Seq<(usize, usize)>) -> bool {
    forall|i: int| 0 <= i < rs.len() ==> (#[trigger] rs[i]).0 <= rs[i].1
}

/// Index `k` lies inside one of the ranges.
pub open spec fn covers(rs: Seq<(usize, usize)>, k: int) -> bool {
    exists|i: int| 0 <= i < rs.len() && (#[trigger] rs[i]).0 <= k && k <= rs[i].1
}

/// The ranges are sorted ascending by lower bound.
pub open spec fn sorted_by_lo(rs: Seq<(usize, usize)>) -> bool {
    forall|i: int, j: int| 0 <= i <= j < rs.len() ==> (#[trigger] rs[i]).0 <= (#[trigger] rs[j]).0
}

/// Normalized: well-formed and strictly ascending with a gap of at least one
/// index between consecutive ranges (non-overlapping and non-adjacent).
pub open spec fn normalized(rs: Seq<(usize, usize)>) -> bool {
    &&& ranges_wf(rs)
    &&& forall|i: int| 0 <= i < rs.len() - 1 ==> (#[trigger] rs[i]).1 + 1 < rs[i + 1].0
}

/// In a normalized list every later range starts beyond the end of every
/// earlier one, with a gap.
proof fn lemma_normalized_order(rs: Seq<(usize, usize)>, i: int, j: int)
    requires
        normalized(rs),
        0 <= i < j < rs.len(),
    ensures
        rs[i].1 + 1 < rs[j].0,
    decreases j - i,
{
    if j > i + 1 {
        lemma_normalized_order(rs, i, j - 1);
    }
}

/// Appending a range extends the covered indices by exactly that range.
proof fn lemma_covers_push(s: Seq<(usize, usize)>, r: (usize, usize))
    ensures
        forall|k: int| #[trigger] covers(s.push(r), k) <==> covers(s, k) || (r.0 <= k && k <= r.1),
{
    assert forall|k: int| covers(#[trigger] s.push(r), k) implies covers(s, k) || (r.0 <= k && k
        <= r.1) by {
        let i = choose|i: int| 0 <= i < s.push(r).len() && (#[trigger] s.push(r)[i]).0 <= k && k
            <= s.push(r)[i].1;
        if i < s.len() {
            assert(s[i] == s.push(r)[i]);
        }
    }
    assert forall|k: int| covers(s, k) || (r.0 <= k && k <= r.1) implies covers(
        #[trigger] s.push(r),
        k,
    ) by {
        if covers(s, k) {
            let i = choose|i: int| 0 <= i < s.len() && (#[trigger] s[i]).0 <= k && k <= s[i].1;
            assert(s.push(r)[i] == s[i]);
        } else {
            assert(s.push(r)[s.len() as int] == r);
        }
    }
}

/// Inserting a range extends the covered indices by exactly that range.
proof fn lemma_covers_insert(s: Seq<(usize, usize)>, p: int, r: (usize, usize))
    requires
        0 <= p <= s.len(),
    ensures
        forall|k: int| #[trigger] covers(s.insert(p, r), k) <==> covers(s, k) || (r.0 <= k && k
            <= r.1),
{
    let t = s.insert(p, r);
    assert forall|k: int| covers(t, k) implies covers(s, k) || (r.0 <= k && k <= r.1) by {
        let i = choose|i: int| 0 <= i < t.len() && (#[trigger] t[i]).0 <= k && k <= t[i].1;
        if i < p {
            assert(t[i] == s[i]);
        } else if i > p {
            assert(t[i] == s[i - 1]);
        }
    }
    assert forall|k: int| covers(s, k) || (r.0 <= k && k <= r.1) implies covers(t, k) by {
        if covers(s, k) {
            let i = choose|i: int| 0 <= i < s.len() && (#[trigger] s[i]).0 <= k && k <= s[i].1;
            if i < p {
                assert(t[i] == s[i]);
            } else {
                assert(t[i + 1] == s[i]);
            }
        } else {
            assert(t[p] == r);
        }
    }
}

/// Insert `r` into a list sorted by lower bound, keeping it sorted.
fn insert_by_lo(out: &mut Vec<(usize, usize)>, r: (usize, usize))
    requires
        sorted_by_lo(old(out)@),
        ranges_wf(old(out)@),
        r.0 <= r.1,
    ensures
        sorted_by_lo(final(out)@),
        ranges_wf(final(out)@),
        forall|k: int| covers(final(out)@, k) <==> covers(old(out)@, k) || (r.0 <= k && k <= r.1),
{
    let ghost s0 = out@;
    let mut p: usize = 0;
    while p < out.len() && out[p].0 <= r.0
        invariant
            0 <= p <= s0.len(),
            out@ == s0,
            forall|i: int| 0 <= i < p ==> (#[trigger] s0[i]).0 <= r.0,
        decreases s0.len() - p,
    {
        p += 1;
    }
    out.insert(p, r);
    proof {
        assert(out@ == s0.insert(p as int, r));
        lemma_covers_insert(s0, p as int, r);
        assert forall|i: int, j: int| 0 <= i <= j < out@.len() implies (#[trigger] out@[i]).0 <= (
        #[trigger] out@[j]).0 by {
            if i < p && j < p {
                assert(out@[i] == s0[i] && out@[j] == s0[j]);
            } else if i < p && j == p {
                assert(out@[i] == s0[i]);
            } else if i < p && j > p {
                assert(out@[i] == s0[i] && out@[j] == s0[j - 1]);
            } else if i == p && j > p {
                assert(out@[j] == s0[j - 1]);
            } else if i > p && j > p {
                assert(out@[i] == s0[i - 1] && out@[j] == s0[j - 1]);
            }
        }
        assert forall|i: int| 0 <= i < out@.len() implies (#[trigger] out@[i]).0 <= out@[i].1 by {
            if i < p {
                assert(out@[i] == s0[i]);
            } else if i > p {
                assert(out@[i] == s0[i - 1]);
            }
        }
    }
}

/// Replacing the last range of `q` by its widening to upper bound
/// `max(last.1, nh)` covers exactly the old indices plus `[nl, nh]`,
/// provided `[nl, nh]` starts within or just after the last range.
proof fn lemma_covers_merge_last(q: Seq<(usize, usize)>, nl: usize, nh: usize, t: Seq<(usize, usize)>)
    requires
        q.len() >= 1,
        ranges_wf(q),
        q.last().0 <= nl,
        nl <= q.last().1 + 1,
        nl <= nh,
        t == q.drop_last().push((q.last().0, if nh > q.last().1 { nh } else { q.last().1 })),
    ensures
        forall|k: int| covers(t, k) <==> covers(q, k) || (nl <= k && k <= nh),
{
    let lo = q.last().0;
    let hi = q.last().1;
    let m: usize = if nh > hi { nh } else { hi };
    assert(t.len() == q.len());
    assert forall|k: int| covers(t, k) implies covers(q, k) || (nl <= k && k <= nh) by {
        let i = choose|i: int| 0 <= i < t.len() && (#[trigger] t[i]).0 <= k && k <= t[i].1;
        if i < q.len() - 1 {
            assert(t[i] == q[i]);
        } else {
            assert(t[i] == (lo, m));
            if k <= hi {
                assert(q[q.len() - 1] == (lo, hi));
                assert(covers(q, k));
            } else {
                assert(m == nh);
            }
        }
    }
    assert forall|k: int| covers(q, k) || (nl <= k && k <= nh) implies covers(t, k) by {
        if covers(q, k) {
            let i = choose|i: int| 0 <= i < q.len() && (#[trigger] q[i]).0 <= k && k <= q[i].1;
            if i < q.len() - 1 {
                assert(t[i] == q[i]);
            } else {
                assert(t[i] == (lo, m));
            }
        } else {
            assert(t[t.len() - 1] == (lo, m));
        }
    }
}

/// Merge a sorted list of well-formed ranges into a normalized list covering
/// the same indices.
#[verifier::loop_isolation(false)]
fn merge_sorted(sorted: &Vec<(usize, usize)>) -> (r: Vec<(usize, usize)>)
    requires
        sorted_by_lo(sorted@),
        ranges_wf(sorted@),
    ensures
        normalized(r@),
        forall|k: int| covers(r@, k) <==> covers(sorted@, k),
{
    let mut queue: Vec<(usize, usize)> = Vec::new();
    if sorted.len() == 0 {
        assert(sorted@.take(0) =~= sorted@);
        return queue;
    }
    queue.push(sorted[0]);
    proof {
        lemma_covers_push(Seq::<(usize, usize)>::empty(), sorted@[0]);
        assert(sorted@.take(1) =~= Seq::<(usize, usize)>::empty().push(sorted@[0]));
    }
    let mut idx: usize = 1;
    while idx < sorted.len()
        invariant
            1 <= idx <= sorted@.len(),
            queue@.len() >= 1,
            normalized(queue@),
            forall|k: int| covers(queue@, k) <==> covers(sorted@.take(idx as int), k),
            forall|j: int| idx <= j < sorted@.len() ==> queue@.last().0 <= (#[trigger] sorted@[j]).0,
        decreases sorted@.len() - idx,
    {
        let (nl, nh) = sorted[idx];
        let ghost q0 = queue@;
        let ql = queue.len();
        let (lo, hi) = queue[ql - 1];
        proof {
            assert(sorted@.take(idx as int + 1) =~= sorted@.take(idx as int).push(sorted@[idx as int]));
            lemma_covers_push(sorted@.take(idx as int), sorted@[idx as int]);
        }
        if nl <= hi || nl - 1 == hi {
            let new_hi = if nh > hi { nh } else { hi };
            queue.pop();
            queue.push((lo, new_hi));
            proof {
                assert(queue@ =~= q0.drop_last().push((lo, new_hi)));
                lemma_covers_merge_last(q0, nl, nh, queue@);
                assert(forall|k: int|
                    covers(queue@, k) <==> covers(q0, k) || (nl <= k && k <= nh));
                assert forall|i: int| 0 <= i < queue@.len() - 1 implies (#[trigger] queue@[i]).1 + 1
                    < queue@[i + 1].0 by {
                    assert(queue@[i] == q0[i]);
                }
            }
        } else {
            queue.push((nl, nh));
            proof {
                lemma_covers_push(q0, (nl, nh));
                assert forall|i: int| 0 <= i < queue@.len() - 1 implies (#[trigger] queue@[i]).1 + 1
                    < queue@[i + 1].0 by {
                    assert(queue@[i] == q0[i]);
                    if i < queue@.len() - 2 {
                        assert(queue@[i + 1] == q0[i + 1]);
                    }
                }
            }
        }
        proof {
            assert forall|k: int|
                covers(queue@, k) <==> covers(sorted@.take(idx as int + 1), k) by {
                assert(covers(q0, k) <==> covers(sorted@.take(idx as int), k));
                assert(covers(queue@, k) <==> covers(q0, k) || (nl <= k && k <= nh));
                assert(covers(sorted@.take(idx as int + 1), k) <==> covers(
                    sorted@.take(idx as int),
                    k,
                ) || (nl <= k && k <= nh));
            }
        }
        idx += 1;
    }
    proof {
        assert(sorted@.take(idx as int) =~= sorted@);
    }
    queue
}

/// Sort the given well-formed ranges by lower bound, then merge overlapping
/// and adjacent ones. The result is the unique normalized list that covers
/// exactly the indices covered by the input.
#[verifier::loop_isolation(false)]
pub fn sort_and_merge_ranges(ranges: Vec<(usize, usize)>) -> (r: Vec<(usize, usize)>)
    requires
        ranges_wf(ranges@),
    ensures
        normalized(r@),
        forall|k: int| covers(r@, k) <==> covers(ranges@, k),
{
    let mut sorted: Vec<(usize, usize)> = Vec::new();
    let mut i: usize = 0;
    while i < ranges.len()
        invariant
            0 <= i <= ranges@.len(),
            sorted_by_lo(sorted@),
            ranges_wf(sorted@),
            forall|k: int| covers(sorted@, k) <==> covers(ranges@.take(i as int), k),
        decreases ranges@.len() - i,
    {
        proof {
            assert(ranges@.take(i as int + 1) =~= ranges@.take(i as int).push(ranges@[i as int]));
            lemma_covers_push(ranges@.take(i as int), ranges@[i as int]);
        }
        insert_by_lo(&mut sorted, ranges[i]);
        i += 1;
    }
    proof {
        assert(ranges@.take(i as int) =~= ranges@);
    }
    merge_sorted(&sorted)
}

/// Dropping the first range of a normalized list drops exactly the indices
/// that range covers; the later ranges all start beyond it.
proof fn lemma_covers_skip_first(a: Seq<(usize, usize)>)
    requires
        normalized(a),
        a.len() >= 1,
    ensures
        forall|k: int| #[trigger] covers(a.skip(1), k) <==> covers(a, k) && k > a[0].1,
{
    let t = a.skip(1);
    assert forall|k: int| covers(t, k) implies covers(a, k) && k > a[0].1 by {
        let i = choose|i: int| 0 <= i < t.len() && (#[trigger] t[i]).0 <= k && k <= t[i].1;
        assert(t[i] == a[i + 1]);
        lemma_normalized_order(a, 0, i + 1);
    }
    assert forall|k: int| covers(a, k) && k > a[0].1 implies covers(t, k) by {
        let i = choose|i: int| 0 <= i < a.len() && (#[trigger] a[i]).0 <= k && k <= a[i].1;
        assert(i >= 1);
        assert(t[i - 1] == a[i]);
    }
}

/// Two normalized lists that cover the same indices are equal: a covered-index
/// set has exactly one normalized description.
#[verifier::rlimit(60)]
pub proof fn lemma_normalized_covers_unique(a: Seq<(usize, usize)>, b: Seq<(usize, usize)>)
    requires
        normalized(a),
        normalized(b),
        forall|k: int| covers(a, k) <==> covers(b, k),
    ensures
        a == b,
    decreases a.len(),
{
    if a.len() == 0 && b.len() == 0 {
        assert(a =~= b);
    } else if a.len() == 0 {
        assert(covers(b, b[0].0 as int));
        assert(false);
    } else if b.len() == 0 {
        assert(covers(a, a[0].0 as int));
        assert(false);
    } else {
        // The lists agree on their first lower bound.
        if b[0].0 < a[0].0 {
            assert(covers(b, b[0].0 as int));
            let i = choose|i: int| 0 <= i < a.len() && (#[trigger] a[i]).0 <= b[0].0 && b[0].0
                <= a[i].1;
            if i >= 1 {
                lemma_normalized_order(a, 0, i);
            }
            assert(false);
        }
        if a[0].0 < b[0].0 {
            assert(covers(a, a[0].0 as int));
            let i = choose|i: int| 0 <= i < b.len() && (#[trigger] b[i]).0 <= a[0].0 && a[0].0
                <= b[i].1;
            if i >= 1 {
                lemma_normalized_order(b, 0, i);
            }
            assert(false);
        }
        // And on their first upper bound.
        if a[0].1 < b[0].1 {
            assert(covers(b, a[0].1 + 1));
            let i = choose|i: int| 0 <= i < a.len() && (#[trigger] a[i]).0 <= a[0].1 + 1 && a[0].1
                + 1 <= a[i].1;
            if i >= 1 {
                lemma_normalized_order(a, 0, i);
            }
            assert(false);
        }
        if b[0].1 < a[0].1 {
            assert(covers(a, b[0].1 + 1));
            let i = choose|i: int| 0 <= i < b.len() && (#[trigger] b[i]).0 <= b[0].1 + 1 && b[0].1
                + 1 <= b[i].1;
            if i >= 1 {
                lemma_normalized_order(b, 0, i);
            }
            assert(false);
        }
        assert(a[0] == b[0]);
        // The tails are normalized, cover the same indices, and are equal by
        // induction.
        let a1 = a.skip(1);
        let b1 = b.skip(1);
        assert(normalized(a1)) by {
            assert(forall|i: int| 0 <= i < a1.len() ==> #[trigger] a1[i] == a[i + 1]);
        }
        assert(normalized(b1)) by {
            assert(forall|i: int| 0 <= i < b1.len() ==> #[trigger] b1[i] == b[i + 1]);
        }
        lemma_covers_skip_first(a);
        lemma_covers_skip_first(b);
        assert forall|k: int| covers(a1, k) <==> covers(b1, k) by {
            assert(covers(a1, k) <==> covers(a, k) && k > a[0].1);
            assert(covers(b1, k) <==> covers(b, k) && k > b[0].1);
            assert(covers(a, k) <==> covers(b, k));
        }
        lemma_normalized_covers_unique(a1, b1);
        assert forall|i: int| 0 <= i < a.len() implies a[i] == b[i] by {
            if i >= 1 {
                assert(a1[i - 1] == a[i]);
                assert(b1[i - 1] == b[i]);
            }
        }
        assert(a =~= b);
    }
}

/// Normalizing a second time changes nothing. If `r1` is a normalization of
/// the ranges `s` (as [`sort_and_merge_ranges`] ensures) and `r2` is a
/// normalization of `r1`, then `r2` equals `r1`.
pub proof fn lemma_normalize_idempotent(
    s: Seq<(usize, usize)>,
    r1: Seq<(usize, usize)>,
    r2: Seq<(usize, usize)>,
)
    requires
        normalized(r1),
        forall|k: int| covers(r1, k) <==> covers(s, k),
        normalized(r2),
        forall|k: int| covers(r2, k) <==> covers(r1, k),
    ensures
        r2 == r1,
{
    lemma_normalized_covers_unique(r2, r1);
}

} // verus!
