//! Selecting fields from a tokenized line and rendering the output row.
//!
//! The normalized ranges are expanded in order into ascending field indices;
//! the fields at those indices are emitted joined by single tabs. When a
//! range reaches past the line's last field the whole line is rejected (the
//! fatal out-of-range policy).

use vstd::prelude::*;
use crate::ranges::ranges_wf;
use crate::tokenize::tokens;
use crate::tokenize::parse_line;
use vstd::string::StringExecFns;

verus! {

/// The fields of `flds` at indices `lo..=hi`, in order.
pub open spec fn range_fields(lo: usize, hi: usize, flds: Seq<Seq<char>>) -> Seq<Seq<char>> {
    Seq::new((hi + 1 - lo) as nat, |m: int| flds[lo + m])
}

/// The fields selected from `flds` by the ranges, in range order.
pub open spec fn selected(rs: Seq<(usize, usize)>, flds: Seq<Seq<char>>) -> Seq<Seq<char>>
    decreases rs.len(),
{
    if rs.len() == 0 {
        Seq::empty()
    } else {
        range_fields(rs[0].0, rs[0].1, flds) + selected(rs.skip(1), flds)
    }
}

/// The cells joined by a single tab between consecutive cells, with no
/// trailing delimiter.
pub open spec fn join_tabs(cells: Seq<Seq<char>>) -> Seq<char>
    decreases cells.len(),
{
    if cells.len() == 0 {
        Seq::empty()
    } else if cells.len() == 1 {
        cells[0]
    } else {
        cells[0] + seq!['\t'] + join_tabs(cells.skip(1))
    }
}

/// Appending a range to a selection appends the fields it covers.
proof fn lemma_selected_push(rs: Seq<(usize, usize)>, r: (usize, usize), flds: Seq<Seq<char>>)
    ensures
        selected(rs.push(r), flds) == selected(rs, flds) + range_fields(r.0, r.1, flds),
    decreases rs.len(),
{
    if rs.len() == 0 {
        assert(selected(rs, flds) == Seq::<Seq<char>>::empty());
        assert(rs.push(r)[0] == r);
        assert(rs.push(r).skip(1) =~= Seq::<(usize, usize)>::empty());
        assert(selected(rs.push(r).skip(1), flds) == Seq::<Seq<char>>::empty());
        assert(selected(rs.push(r), flds) == range_fields(r.0, r.1, flds) + selected(
            rs.push(r).skip(1),
            flds,
        ));
        assert(selected(rs.push(r), flds) =~~= selected(rs, flds) + range_fields(r.0, r.1, flds));
    } else {
        assert(rs.push(r)[0] == rs[0]);
        assert(rs.push(r).skip(1) =~= rs.skip(1).push(r));
        lemma_selected_push(rs.skip(1), r, flds);
        assert(selected(rs.push(r), flds) == range_fields(rs[0].0, rs[0].1, flds) + selected(
            rs.skip(1).push(r),
            flds,
        ));
        assert(selected(rs.skip(1).push(r), flds) == selected(rs.skip(1), flds) + range_fields(
            r.0,
            r.1,
            flds,
        ));
        assert(selected(rs, flds) == range_fields(rs[0].0, rs[0].1, flds) + selected(
            rs.skip(1),
            flds,
        ));
        assert(selected(rs.push(r), flds) =~~= selected(rs, flds) + range_fields(r.0, r.1, flds));
    }
}

/// Appending a cell to a row appends a tab and the cell (or is the cell
/// itself for the first one).
proof fn lemma_join_tabs_push(cells: Seq<Seq<char>>, x: Seq<char>)
    ensures
        cells.len() == 0 ==> join_tabs(cells.push(x)) == x,
        cells.len() > 0 ==> join_tabs(cells.push(x)) == join_tabs(cells) + seq!['\t'] + x,
    decreases cells.len(),
{
    if cells.len() == 0 {
        assert(cells.push(x)[0] == x);
    } else if cells.len() == 1 {
        assert(cells.push(x)[0] == cells[0]);
        assert(cells.push(x).skip(1) =~= seq![x]);
        assert(join_tabs(seq![x]) == x);
    } else {
        assert(cells.push(x)[0] == cells[0]);
        assert(cells.push(x).skip(1) =~= cells.skip(1).push(x));
        lemma_join_tabs_push(cells.skip(1), x);
        assert(cells.skip(1).len() > 0);
        assert(cells[0] + seq!['\t'] + (join_tabs(cells.skip(1)) + seq!['\t'] + x) =~= (cells[0]
            + seq!['\t'] + join_tabs(cells.skip(1))) + seq!['\t'] + x);
    }
}

/// Select the fields the normalized ranges call for.
///
/// Returns `None` exactly when some range reaches past the last field.
#[verifier::loop_isolation(false)]
pub fn select_fields(ranges: &Vec<(usize, usize)>, fields: &Vec<String>) -> (r: Option<
    Vec<String>,
>)
    requires
        ranges_wf(ranges@),
    ensures
        r is Some <==> (forall|i: int|
            0 <= i < ranges@.len() ==> (#[trigger] ranges@[i]).1 < fields@.len()),
        r matches Some(v) ==> v.deep_view() == selected(ranges@, fields.deep_view()),
{
    let mut ri: usize = 0;
    while ri < ranges.len()
        invariant
            0 <= ri <= ranges@.len(),
            forall|i: int| 0 <= i < ri ==> (#[trigger] ranges@[i]).1 < fields@.len(),
        decreases ranges@.len() - ri,
    {
        if ranges[ri].1 >= fields.len() {
            return None;
        }
        ri += 1;
    }
    let ghost flds = fields.deep_view();
    let mut out: Vec<String> = Vec::new();
    ri = 0;
    proof {
        assert(ranges@.take(0) =~= Seq::<(usize, usize)>::empty());
    }
    while ri < ranges.len()
        invariant
            0 <= ri <= ranges@.len(),
            forall|i: int| 0 <= i < ranges@.len() ==> (#[trigger] ranges@[i]).1 < fields@.len(),
            out.deep_view() =~= selected(ranges@.take(ri as int), flds),
        decreases ranges@.len() - ri,
    {
        let (lo, hi) = ranges[ri];
        let flen = fields.len();
        proof {
            assert(ranges@[ri as int].1 < fields@.len());
        }
        let ghost sel0 = out.deep_view();
        let mut j: usize = lo;
        while j <= hi
            invariant
                flen == fields@.len(),
                hi < flen,
                lo <= j <= hi + 1,
                out.deep_view() =~= sel0 + Seq::new((j - lo) as nat, |m: int| flds[lo + m]),
            decreases hi + 1 - j,
        {
            let ghost before = out.deep_view();
            out.push(fields[j].clone());
            proof {
                assert(fields@[j as int]@ == flds[j as int]);
                assert(out.deep_view() =~= before.push(flds[j as int]));
                assert(out.deep_view() =~= sel0 + Seq::new((j + 1 - lo) as nat, |m: int| flds[lo + m]));
            }
            j += 1;
        }
        proof {
            assert(Seq::new((hi + 1 - lo) as nat, |m: int| flds[lo + m]) =~= range_fields(
                lo,
                hi,
                flds,
            ));
            assert(ranges@.take(ri as int + 1) =~= ranges@.take(ri as int).push(ranges@[ri as int]));
            lemma_selected_push(ranges@.take(ri as int), ranges@[ri as int], flds);
        }
        ri += 1;
    }
    proof {
        assert(ranges@.take(ranges@.len() as int) =~= ranges@);
    }
    Some(out)
}

/// Join the selected cells with single tabs.
#[verifier::loop_isolation(false)]
pub fn render_row(cells: &Vec<String>) -> (r: String)
    ensures
        r@ == join_tabs(cells.deep_view()),
{
    let mut out = String::new();
    let mut i: usize = 0;
    proof {
        assert(cells.deep_view().take(0) =~= Seq::<Seq<char>>::empty());
    }
    while i < cells.len()
        invariant
            0 <= i <= cells@.len(),
            out@ == join_tabs(cells.deep_view().take(i as int)),
        decreases cells@.len() - i,
    {
        proof {
            reveal_strlit("\t");
            assert("\t"@ =~= seq!['\t']);
            lemma_join_tabs_push(cells.deep_view().take(i as int), cells.deep_view()[i as int]);
            assert(cells.deep_view().take(i as int + 1) =~= cells.deep_view().take(
                i as int,
            ).push(cells.deep_view()[i as int]));
        }
        if i > 0 {
            out.append("\t");
        }
        let cell = &cells[i];
        out.append(cell.as_str());
        proof {
            assert(cells@[i as int]@ == cells.deep_view()[i as int]);
        }
        i += 1;
    }
    proof {
        assert(cells.deep_view().take(cells@.len() as int) =~= cells.deep_view());
    }
    out
}

/// Process one input line: split it into whitespace-delimited fields, select
/// the fields the normalized ranges call for, and join them with tabs.
///
/// Returns `None` exactly when some range reaches past the line's last field
/// (the fatal out-of-range policy).
pub fn process_line(ranges: &Vec<(usize, usize)>, line: &str) -> (r: Option<String>)
    requires
        ranges_wf(ranges@),
    ensures
        r is Some <==> (forall|i: int|
            0 <= i < ranges@.len() ==> (#[trigger] ranges@[i]).1 < tokens(line@).len()),
        r matches Some(out) ==> out@ == join_tabs(selected(ranges@, tokens(line@))),
{
    let fields = parse_line(line);
    match select_fields(ranges, &fields) {
        None => None,
        Some(sel) => Some(render_row(&sel)),
    }
}

/// Selecting every index of a non-empty field list reproduces the list: the
/// single range `(0, n-1)` selects all `n` fields in their original order.
pub proof fn lemma_select_all(flds: Seq<Seq<char>>, n: usize)
    requires
        flds.len() == n,
        n >= 1,
    ensures
        selected(seq![(0usize, (n - 1) as usize)], flds) == flds,
{
    let rs = seq![(0usize, (n - 1) as usize)];
    assert(rs[0] == (0usize, (n - 1) as usize));
    assert(rs.skip(1) =~= Seq::<(usize, usize)>::empty());
    assert(selected(rs.skip(1), flds) == Seq::<Seq<char>>::empty());
    assert(selected(rs, flds) == range_fields(0usize, (n - 1) as usize, flds) + selected(
        rs.skip(1),
        flds,
    ));
    assert(range_fields(0usize, (n - 1) as usize, flds) =~= flds);
    assert(selected(rs, flds) =~~= flds);
}

} // verus!
