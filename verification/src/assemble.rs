//! Result assembly: materializing output columns from an index-pair
//! sequence by gathering rows out of the two source tables, slicing the
//! pair sequence before any gather work, and coalescing outer-join key
//! pairs into single columns.

use crate::matcher::{pairs_in_bounds, pairs_view, GPair, IdxPair};
use crate::normalize::distinct_strs;
use crate::table::{Cell, Column, ColumnData, DataType, Table};
use vstd::prelude::*;

verus! {

/// One side of a pair sequence, as a gather index: `None` rows take nulls.
pub open spec fn side_idx(ps: Seq<GPair>, left: bool) -> Seq<Option<int>> {
    ps.map_values(
        |q: GPair|
            if left {
                q.0
            } else {
                q.1
            },
    )
}

/// Cells gathered by an optional index; a missing index yields a null.
pub open spec fn gather_cells(cells: Seq<Cell>, idx: Seq<Option<int>>) -> Seq<Cell> {
    Seq::new(
        idx.len(),
        |r: int|
            match idx[r] {
                Some(i) => cells[i],
                None => Cell::Null,
            },
    )
}

/// The coalesced cells of an outer-join key pair: the left row's cell
/// whenever a left row is present, else the right row's cell.
pub open spec fn coalesce_cells(lc: Seq<Cell>, rc: Seq<Cell>, ps: Seq<GPair>) -> Seq<Cell> {
    Seq::new(
        ps.len(),
        |r: int|
            match ps[r].0 {
                Some(i) => lc[i],
                None => match ps[r].1 {
                    Some(j) => rc[j],
                    None => Cell::Null,
                },
            },
    )
}

/// The pair sequence a slice `(offset, length)` keeps: rows
/// `[offset, offset + length)`, clipped to the sequence.
pub open spec fn slice_seq(s: Seq<GPair>, offset: int, len: int) -> Seq<GPair> {
    let start = if offset < s.len() {
        offset
    } else {
        s.len() as int
    };
    let end = if offset + len < s.len() {
        offset + len
    } else {
        s.len() as int
    };
    s.subrange(start, end)
}

/// Slicing law, gather side: gathering through a sliced pair sequence
/// yields exactly the corresponding row range of the unsliced gather.
pub proof fn lemma_slice_gather(cells: Seq<Cell>, ps: Seq<GPair>, offset: int, len: int, left: bool)
    requires
        offset >= 0,
        len >= 0,
    ensures
        gather_cells(cells, side_idx(slice_seq(ps, offset, len), left)) == slice_cells(
            gather_cells(cells, side_idx(ps, left)),
            offset,
            len,
        ),
{
    assert(gather_cells(cells, side_idx(slice_seq(ps, offset, len), left)) =~= slice_cells(
        gather_cells(cells, side_idx(ps, left)),
        offset,
        len,
    ));
}

/// Slicing law, coalesce side: coalescing through a sliced pair sequence
/// yields the corresponding row range of the unsliced coalesce.
pub proof fn lemma_slice_coalesce(
    lc: Seq<Cell>,
    rc: Seq<Cell>,
    ps: Seq<GPair>,
    offset: int,
    len: int,
)
    requires
        offset >= 0,
        len >= 0,
    ensures
        coalesce_cells(lc, rc, slice_seq(ps, offset, len)) == slice_cells(
            coalesce_cells(lc, rc, ps),
            offset,
            len,
        ),
{
    assert(coalesce_cells(lc, rc, slice_seq(ps, offset, len)) =~= slice_cells(
        coalesce_cells(lc, rc, ps),
        offset,
        len,
    ));
}

/// The row range `[offset, offset + len)` of a cell sequence, clipped.
pub open spec fn slice_cells(cells: Seq<Cell>, offset: int, len: int) -> Seq<Cell> {
    let start = if offset < cells.len() {
        offset
    } else {
        cells.len() as int
    };
    let end = if offset + len < cells.len() {
        offset + len
    } else {
        cells.len() as int
    };
    cells.subrange(start, end)
}

/// Applies a slice to the pair sequence before any materialization.
pub(crate) fn slice_pairs(v: Vec<IdxPair>, offset: usize, len: usize) -> (r: Vec<IdxPair>)
    ensures
        pairs_view(r@) == slice_seq(pairs_view(v@), offset as int, len as int),
{
    let n = v.len();
    let start: usize = if offset < n {
        offset
    } else {
        n
    };
    let take: usize = if len < n - start {
        len
    } else {
        n - start
    };
    let mut out: Vec<IdxPair> = Vec::new();
    let mut r: usize = 0;
    while r < take
        invariant
            r <= take,
            start + take <= n,
            n == v@.len(),
            out@ =~= v@.subrange(start as int, start + r),
        decreases take - r,
    {
        out.push(v[start + r]);
        proof {
            assert(out@ =~= v@.subrange(start as int, start + r + 1));
        }
        r = r + 1;
    }
    proof {
        assert(pairs_view(out@) =~= slice_seq(pairs_view(v@), offset as int, len as int));
    }
    out
}

/// Gathers the option-valued entries of one vector by one side of the pairs.
fn gather_opt_ints(v: &Vec<Option<i64>>, pairs: &Vec<IdxPair>, left: bool) -> (out: Vec<
    Option<i64>,
>)
    requires
        pairs_in_bounds(pairs_view(pairs@), v@.len() as int, left),
    ensures
        out@.len() == pairs@.len(),
        forall|r: int|
            0 <= r < out@.len() ==> #[trigger] out@[r] == (match side_idx(pairs_view(pairs@), left)[r] {
                Some(i) => v@[i],
                None => None,
            }),
{
    let n = pairs.len();
    let mut out: Vec<Option<i64>> = Vec::new();
    let mut r: usize = 0;
    while r < n
        invariant
            r <= n,
            n == pairs@.len(),
            pairs_in_bounds(pairs_view(pairs@), v@.len() as int, left),
            out@.len() == r,
            forall|q: int|
                0 <= q < r ==> #[trigger] out@[q] == (match side_idx(pairs_view(pairs@), left)[q] {
                    Some(i) => v@[i],
                    None => None,
                }),
        decreases n - r,
    {
        let idx = if left {
            pairs[r].0
        } else {
            pairs[r].1
        };
        proof {
            assert(pairs_view(pairs@)[r as int] == crate::matcher::pair_view(pairs@[r as int]));
        }
        match idx {
            Some(i) => {
                out.push(v[i]);
            },
            None => {
                out.push(None);
            },
        }
        r = r + 1;
    }
    out
}

fn gather_opt_bools(v: &Vec<Option<bool>>, pairs: &Vec<IdxPair>, left: bool) -> (out: Vec<
    Option<bool>,
>)
    requires
        pairs_in_bounds(pairs_view(pairs@), v@.len() as int, left),
    ensures
        out@.len() == pairs@.len(),
        forall|r: int|
            0 <= r < out@.len() ==> #[trigger] out@[r] == (match side_idx(pairs_view(pairs@), left)[r] {
                Some(i) => v@[i],
                None => None,
            }),
{
    let n = pairs.len();
    let mut out: Vec<Option<bool>> = Vec::new();
    let mut r: usize = 0;
    while r < n
        invariant
            r <= n,
            n == pairs@.len(),
            pairs_in_bounds(pairs_view(pairs@), v@.len() as int, left),
            out@.len() == r,
            forall|q: int|
                0 <= q < r ==> #[trigger] out@[q] == (match side_idx(pairs_view(pairs@), left)[q] {
                    Some(i) => v@[i],
                    None => None,
                }),
        decreases n - r,
    {
        let idx = if left {
            pairs[r].0
        } else {
            pairs[r].1
        };
        proof {
            assert(pairs_view(pairs@)[r as int] == crate::matcher::pair_view(pairs@[r as int]));
        }
        match idx {
            Some(i) => {
                out.push(v[i]);
            },
            None => {
                out.push(None);
            },
        }
        r = r + 1;
    }
    out
}

fn gather_opt_strs(v: &Vec<Option<String>>, pairs: &Vec<IdxPair>, left: bool) -> (out: Vec<
    Option<String>,
>)
    requires
        pairs_in_bounds(pairs_view(pairs@), v@.len() as int, left),
    ensures
        out@.len() == pairs@.len(),
        forall|r: int|
            0 <= r < out@.len() ==> #[trigger] out@[r] == (match side_idx(pairs_view(pairs@), left)[r] {
                Some(i) => v@[i],
                None => None,
            }),
{
    let n = pairs.len();
    let mut out: Vec<Option<String>> = Vec::new();
    let mut r: usize = 0;
    while r < n
        invariant
            r <= n,
            n == pairs@.len(),
            pairs_in_bounds(pairs_view(pairs@), v@.len() as int, left),
            out@.len() == r,
            forall|q: int|
                0 <= q < r ==> #[trigger] out@[q] == (match side_idx(pairs_view(pairs@), left)[q] {
                    Some(i) => v@[i],
                    None => None,
                }),
        decreases n - r,
    {
        let idx = if left {
            pairs[r].0
        } else {
            pairs[r].1
        };
        proof {
            assert(pairs_view(pairs@)[r as int] == crate::matcher::pair_view(pairs@[r as int]));
        }
        match idx {
            Some(i) => match &v[i] {
                Some(s) => {
                    out.push(Some(s.clone()));
                },
                None => {
                    out.push(None);
                },
            },
            None => {
                out.push(None);
            },
        }
        r = r + 1;
    }
    out
}

fn gather_opt_codes(v: &Vec<Option<usize>>, pairs: &Vec<IdxPair>, left: bool) -> (out: Vec<
    Option<usize>,
>)
    requires
        pairs_in_bounds(pairs_view(pairs@), v@.len() as int, left),
    ensures
        out@.len() == pairs@.len(),
        forall|r: int|
            0 <= r < out@.len() ==> #[trigger] out@[r] == (match side_idx(pairs_view(pairs@), left)[r] {
                Some(i) => v@[i],
                None => None,
            }),
{
    let n = pairs.len();
    let mut out: Vec<Option<usize>> = Vec::new();
    let mut r: usize = 0;
    while r < n
        invariant
            r <= n,
            n == pairs@.len(),
            pairs_in_bounds(pairs_view(pairs@), v@.len() as int, left),
            out@.len() == r,
            forall|q: int|
                0 <= q < r ==> #[trigger] out@[q] == (match side_idx(pairs_view(pairs@), left)[q] {
                    Some(i) => v@[i],
                    None => None,
                }),
        decreases n - r,
    {
        let idx = if left {
            pairs[r].0
        } else {
            pairs[r].1
        };
        proof {
            assert(pairs_view(pairs@)[r as int] == crate::matcher::pair_view(pairs@[r as int]));
        }
        match idx {
            Some(i) => {
                out.push(v[i]);
            },
            None => {
                out.push(None);
            },
        }
        r = r + 1;
    }
    out
}

/// Copies a dictionary, entry for entry.
fn clone_dict(dict: &Vec<String>) -> (out: Vec<String>)
    ensures
        out@.len() == dict@.len(),
        forall|k: int| 0 <= k < out@.len() ==> #[trigger] out@[k] == dict@[k],
{
    let n = dict.len();
    let mut out: Vec<String> = Vec::new();
    let mut k: usize = 0;
    while k < n
        invariant
            k <= n,
            n == dict@.len(),
            out@.len() == k,
            forall|q: int| 0 <= q < k ==> #[trigger] out@[q] == dict@[q],
        decreases n - k,
    {
        out.push(dict[k].clone());
        k = k + 1;
    }
    out
}

/// Gathers the rows of one column by one side of the pair sequence.
pub(crate) fn gather_data(d: &ColumnData, pairs: &Vec<IdxPair>, left: bool) -> (out: ColumnData)
    requires
        d.wf(),
        pairs_in_bounds(pairs_view(pairs@), d.spec_len() as int, left),
    ensures
        out.wf(),
        out.spec_len() == pairs@.len(),
        out.spec_dtype() == d.spec_dtype(),
        out.cells() == gather_cells(d.cells(), side_idx(pairs_view(pairs@), left)),
{
    match d {
        ColumnData::Ints(v) => {
            let out = ColumnData::Ints(gather_opt_ints(v, pairs, left));
            proof {
                assert(out.cells() =~= gather_cells(d.cells(), side_idx(pairs_view(pairs@), left)));
            }
            out
        },
        ColumnData::Bools(v) => {
            let out = ColumnData::Bools(gather_opt_bools(v, pairs, left));
            proof {
                assert(out.cells() =~= gather_cells(d.cells(), side_idx(pairs_view(pairs@), left)));
            }
            out
        },
        ColumnData::Strs(v) => {
            let out = ColumnData::Strs(gather_opt_strs(v, pairs, left));
            proof {
                assert(out.cells() =~= gather_cells(d.cells(), side_idx(pairs_view(pairs@), left)));
            }
            out
        },
        ColumnData::Cats { codes, dict } => {
            let new_codes = gather_opt_codes(codes, pairs, left);
            let new_dict = clone_dict(dict);
            let out = ColumnData::Cats { codes: new_codes, dict: new_dict };
            proof {
                assert(out.cells() =~= gather_cells(d.cells(), side_idx(pairs_view(pairs@), left)));
            }
            out
        },
    }
}

/// The shape of one gathered projection: for each kept column index, an
/// output column with the source's name and type whose cells are the
/// gathered rows.
pub open spec fn gathered_ok(
    out: Seq<Column>,
    t: Table,
    keep: Seq<usize>,
    ps: Seq<GPair>,
    left: bool,
) -> bool {
    &&& out.len() == keep.len()
    &&& forall|k: int|
        0 <= k < out.len() ==> {
            let src = t.columns@[keep[k] as int];
            &&& (#[trigger] out[k]).name@ == src.name@
            &&& out[k].wf()
            &&& out[k].data.spec_len() == ps.len()
            &&& out[k].data.spec_dtype() == src.data.spec_dtype()
            &&& out[k].data.cells() == gather_cells(src.data.cells(), side_idx(ps, left))
        }
}

/// Gathers one side's projection: the kept columns of `t`, each gathered
/// by that side of the pair sequence.
pub(crate) fn gather_columns(t: &Table, keep: &Vec<usize>, pairs: &Vec<IdxPair>, left: bool) -> (out:
    Vec<Column>)
    requires
        t.wf(),
        forall|k: int| 0 <= k < keep@.len() ==> (#[trigger] keep@[k]) < t.columns@.len(),
        pairs_in_bounds(pairs_view(pairs@), t.height as int, left),
    ensures
        gathered_ok(out@, *t, keep@, pairs_view(pairs@), left),
{
    let n = keep.len();
    let mut out: Vec<Column> = Vec::new();
    let mut k: usize = 0;
    while k < n
        invariant
            k <= n,
            n == keep@.len(),
            t.wf(),
            forall|q: int| 0 <= q < keep@.len() ==> (#[trigger] keep@[q]) < t.columns@.len(),
            pairs_in_bounds(pairs_view(pairs@), t.height as int, left),
            out@.len() == k,
            gathered_ok(out@, *t, keep@.take(k as int), pairs_view(pairs@), left),
        decreases n - k,
    {
        let src = &t.columns[keep[k]];
        let name = src.name.clone();
        let data = gather_data(&src.data, pairs, left);
        out.push(Column { name, data });
        proof {
            assert(gathered_ok(out@, *t, keep@.take(k + 1), pairs_view(pairs@), left));
        }
        k = k + 1;
    }
    proof {
        assert(keep@.take(n as int) =~= keep@);
    }
    out
}

/// Relies on rayon_core::join: the dual gather of the result assembler runs
/// as a fork-join pair of tasks over the worker pool; `join(a, b)` always
/// runs both closures to completion and returns `(a(), b())`.  The closures
/// only call the verified `gather_columns`.
#[verifier::external_body]
pub(crate) fn gather_both(
    lt: &Table,
    lkeep: &Vec<usize>,
    rt: &Table,
    rkeep: &Vec<usize>,
    pairs: &Vec<IdxPair>,
) -> (r: (Vec<Column>, Vec<Column>))
    requires
        lt.wf(),
        rt.wf(),
        forall|k: int| 0 <= k < lkeep@.len() ==> (#[trigger] lkeep@[k]) < lt.columns@.len(),
        forall|k: int| 0 <= k < rkeep@.len() ==> (#[trigger] rkeep@[k]) < rt.columns@.len(),
        pairs_in_bounds(pairs_view(pairs@), lt.height as int, true),
        pairs_in_bounds(pairs_view(pairs@), rt.height as int, false),
    ensures
        gathered_ok(r.0@, *lt, lkeep@, pairs_view(pairs@), true),
        gathered_ok(r.1@, *rt, rkeep@, pairs_view(pairs@), false),
{
    rayon::join(
        || gather_columns(lt, lkeep, pairs, true),
        || gather_columns(rt, rkeep, pairs, false),
    )
}

/// Coalesces one outer-join key pair into a single column's data: the left
/// value whenever a left row is present, else the right value.  A
/// categorical pair is merged through a union dictionary of both sides.
pub(crate) fn gather_coalesced(lc: &ColumnData, rc: &ColumnData, pairs: &Vec<IdxPair>) -> (out:
    ColumnData)
    requires
        lc.wf(),
        rc.wf(),
        lc.spec_dtype() == rc.spec_dtype(),
        pairs_in_bounds(pairs_view(pairs@), lc.spec_len() as int, true),
        pairs_in_bounds(pairs_view(pairs@), rc.spec_len() as int, false),
    ensures
        out.wf(),
        out.spec_len() == pairs@.len(),
        out.spec_dtype() == lc.spec_dtype(),
        out.cells() == coalesce_cells(lc.cells(), rc.cells(), pairs_view(pairs@)),
{
    match (lc, rc) {
        (ColumnData::Ints(lv), ColumnData::Ints(rv)) => {
            let out = ColumnData::Ints(coalesce_opt_ints(lv, rv, pairs));
            proof {
                assert(out.cells() =~= coalesce_cells(lc.cells(), rc.cells(), pairs_view(pairs@)));
            }
            out
        },
        (ColumnData::Bools(lv), ColumnData::Bools(rv)) => {
            let out = ColumnData::Bools(coalesce_opt_bools(lv, rv, pairs));
            proof {
                assert(out.cells() =~= coalesce_cells(lc.cells(), rc.cells(), pairs_view(pairs@)));
            }
            out
        },
        (ColumnData::Strs(lv), ColumnData::Strs(rv)) => {
            let out = ColumnData::Strs(coalesce_opt_strs(lv, rv, pairs));
            proof {
                assert(out.cells() =~= coalesce_cells(lc.cells(), rc.cells(), pairs_view(pairs@)));
            }
            out
        },
        (
            ColumnData::Cats { codes: lcodes, dict: ldict },
            ColumnData::Cats { codes: rcodes, dict: rdict },
        ) => coalesce_cats(lcodes, ldict, rcodes, rdict, pairs),
        _ => vstd::pervasive::unreached(),
    }
}

fn coalesce_opt_ints(lv: &Vec<Option<i64>>, rv: &Vec<Option<i64>>, pairs: &Vec<IdxPair>) -> (out:
    Vec<Option<i64>>)
    requires
        pairs_in_bounds(pairs_view(pairs@), lv@.len() as int, true),
        pairs_in_bounds(pairs_view(pairs@), rv@.len() as int, false),
    ensures
        out@.len() == pairs@.len(),
        forall|r: int|
            0 <= r < out@.len() ==> #[trigger] out@[r] == (match pairs_view(pairs@)[r].0 {
                Some(i) => lv@[i],
                None => match pairs_view(pairs@)[r].1 {
                    Some(j) => rv@[j],
                    None => None,
                },
            }),
{
    let n = pairs.len();
    let mut out: Vec<Option<i64>> = Vec::new();
    let mut r: usize = 0;
    while r < n
        invariant
            r <= n,
            n == pairs@.len(),
            pairs_in_bounds(pairs_view(pairs@), lv@.len() as int, true),
            pairs_in_bounds(pairs_view(pairs@), rv@.len() as int, false),
            out@.len() == r,
            forall|q: int|
                0 <= q < r ==> #[trigger] out@[q] == (match pairs_view(pairs@)[q].0 {
                    Some(i) => lv@[i],
                    None => match pairs_view(pairs@)[q].1 {
                        Some(j) => rv@[j],
                        None => None,
                    },
                }),
        decreases n - r,
    {
        proof {
            assert(pairs_view(pairs@)[r as int] == crate::matcher::pair_view(pairs@[r as int]));
        }
        match pairs[r].0 {
            Some(i) => {
                out.push(lv[i]);
            },
            None => match pairs[r].1 {
                Some(j) => {
                    out.push(rv[j]);
                },
                None => {
                    out.push(None);
                },
            },
        }
        r = r + 1;
    }
    out
}

fn coalesce_opt_bools(lv: &Vec<Option<bool>>, rv: &Vec<Option<bool>>, pairs: &Vec<IdxPair>) -> (out:
    Vec<Option<bool>>)
    requires
        pairs_in_bounds(pairs_view(pairs@), lv@.len() as int, true),
        pairs_in_bounds(pairs_view(pairs@), rv@.len() as int, false),
    ensures
        out@.len() == pairs@.len(),
        forall|r: int|
            0 <= r < out@.len() ==> #[trigger] out@[r] == (match pairs_view(pairs@)[r].0 {
                Some(i) => lv@[i],
                None => match pairs_view(pairs@)[r].1 {
                    Some(j) => rv@[j],
                    None => None,
                },
            }),
{
    let n = pairs.len();
    let mut out: Vec<Option<bool>> = Vec::new();
    let mut r: usize = 0;
    while r < n
        invariant
            r <= n,
            n == pairs@.len(),
            pairs_in_bounds(pairs_view(pairs@), lv@.len() as int, true),
            pairs_in_bounds(pairs_view(pairs@), rv@.len() as int, false),
            out@.len() == r,
            forall|q: int|
                0 <= q < r ==> #[trigger] out@[q] == (match pairs_view(pairs@)[q].0 {
                    Some(i) => lv@[i],
                    None => match pairs_view(pairs@)[q].1 {
                        Some(j) => rv@[j],
                        None => None,
                    },
                }),
        decreases n - r,
    {
        proof {
            assert(pairs_view(pairs@)[r as int] == crate::matcher::pair_view(pairs@[r as int]));
        }
        match pairs[r].0 {
            Some(i) => {
                out.push(lv[i]);
            },
            None => match pairs[r].1 {
                Some(j) => {
                    out.push(rv[j]);
                },
                None => {
                    out.push(None);
                },
            },
        }
        r = r + 1;
    }
    out
}

fn coalesce_opt_strs(
    lv: &Vec<Option<String>>,
    rv: &Vec<Option<String>>,
    pairs: &Vec<IdxPair>,
) -> (out: Vec<Option<String>>)
    requires
        pairs_in_bounds(pairs_view(pairs@), lv@.len() as int, true),
        pairs_in_bounds(pairs_view(pairs@), rv@.len() as int, false),
    ensures
        out@.len() == pairs@.len(),
        forall|r: int|
            0 <= r < out@.len() ==> #[trigger] out@[r] == (match pairs_view(pairs@)[r].0 {
                Some(i) => lv@[i],
                None => match pairs_view(pairs@)[r].1 {
                    Some(j) => rv@[j],
                    None => None,
                },
            }),
{
    let n = pairs.len();
    let mut out: Vec<Option<String>> = Vec::new();
    let mut r: usize = 0;
    while r < n
        invariant
            r <= n,
            n == pairs@.len(),
            pairs_in_bounds(pairs_view(pairs@), lv@.len() as int, true),
            pairs_in_bounds(pairs_view(pairs@), rv@.len() as int, false),
            out@.len() == r,
            forall|q: int|
                0 <= q < r ==> #[trigger] out@[q] == (match pairs_view(pairs@)[q].0 {
                    Some(i) => lv@[i],
                    None => match pairs_view(pairs@)[q].1 {
                        Some(j) => rv@[j],
                        None => None,
                    },
                }),
        decreases n - r,
    {
        proof {
            assert(pairs_view(pairs@)[r as int] == crate::matcher::pair_view(pairs@[r as int]));
        }
        match pairs[r].0 {
            Some(i) => match &lv[i] {
                Some(s) => {
                    out.push(Some(s.clone()));
                },
                None => {
                    out.push(None);
                },
            },
            None => match pairs[r].1 {
                Some(j) => match &rv[j] {
                    Some(s) => {
                        out.push(Some(s.clone()));
                    },
                    None => {
                        out.push(None);
                    },
                },
                None => {
                    out.push(None);
                },
            },
        }
        r = r + 1;
    }
    out
}

/// Coalesces a categorical key pair through a union dictionary of both
/// sides, re-encoding the chosen side's code for each row.
fn coalesce_cats(
    lcodes: &Vec<Option<usize>>,
    ldict: &Vec<String>,
    rcodes: &Vec<Option<usize>>,
    rdict: &Vec<String>,
    pairs: &Vec<IdxPair>,
) -> (out: ColumnData)
    requires
        (ColumnData::Cats { codes: *lcodes, dict: *ldict }).wf(),
        (ColumnData::Cats { codes: *rcodes, dict: *rdict }).wf(),
        pairs_in_bounds(pairs_view(pairs@), lcodes@.len() as int, true),
        pairs_in_bounds(pairs_view(pairs@), rcodes@.len() as int, false),
    ensures
        out.wf(),
        out.spec_len() == pairs@.len(),
        out.spec_dtype() == DataType::Cat,
        out.cells() == coalesce_cells(
            (ColumnData::Cats { codes: *lcodes, dict: *ldict }).cells(),
            (ColumnData::Cats { codes: *rcodes, dict: *rdict }).cells(),
            pairs_view(pairs@),
        ),
{
    let mut list: Vec<String> = Vec::new();
    let lmap = crate::normalize::union_dict_map(ldict, &mut list);
    let ghost mid = list@;
    let rmap = crate::normalize::union_dict_map(rdict, &mut list);
    proof {
        assert forall|k: int|
            0 <= k < lmap@.len() implies (#[trigger] lmap@[k]) < list@.len() && list@[lmap@[k] as int]@
            == ldict@[k]@ by {
            assert(lmap@[k] < mid.len() && mid[lmap@[k] as int]@ == ldict@[k]@);
            assert(list@[lmap@[k] as int] == mid[lmap@[k] as int]);
        }
    }
    let n = pairs.len();
    let mut codes: Vec<Option<usize>> = Vec::new();
    let ghost lc = (ColumnData::Cats { codes: *lcodes, dict: *ldict });
    let ghost rc = (ColumnData::Cats { codes: *rcodes, dict: *rdict });
    let mut r: usize = 0;
    while r < n
        invariant
            r <= n,
            n == pairs@.len(),
            lc == (ColumnData::Cats { codes: *lcodes, dict: *ldict }),
            rc == (ColumnData::Cats { codes: *rcodes, dict: *rdict }),
            lc.wf(),
            rc.wf(),
            pairs_in_bounds(pairs_view(pairs@), lcodes@.len() as int, true),
            pairs_in_bounds(pairs_view(pairs@), rcodes@.len() as int, false),
            distinct_strs(list@),
            lmap@.len() == ldict@.len(),
            rmap@.len() == rdict@.len(),
            forall|k: int|
                0 <= k < lmap@.len() ==> (#[trigger] lmap@[k]) < list@.len()
                    && list@[lmap@[k] as int]@ == ldict@[k]@,
            forall|k: int|
                0 <= k < rmap@.len() ==> (#[trigger] rmap@[k]) < list@.len()
                    && list@[rmap@[k] as int]@ == rdict@[k]@,
            codes@.len() == r,
            forall|q: int|
                0 <= q < r ==> ((#[trigger] codes@[q]) matches Some(c) ==> c < list@.len()),
            forall|q: int|
                0 <= q < r ==> (match codes@[q] {
                    Some(c) => Cell::Str(list@[c as int]@),
                    None => Cell::Null,
                }) == coalesce_cells(lc.cells(), rc.cells(), pairs_view(pairs@))[q],
        decreases n - r,
    {
        proof {
            assert(pairs_view(pairs@)[r as int] == crate::matcher::pair_view(pairs@[r as int]));
        }
        let ll = list.len();
        let ghost target = coalesce_cells(lc.cells(), rc.cells(), pairs_view(pairs@))[r as int];
        match pairs[r].0 {
            Some(i) => match &lcodes[i] {
                Some(c) => {
                    let cu: u64 = lmap[*c];
                    proof {
                        assert(cu < ll);
                    }
                    let code: usize = cu as usize;
                    codes.push(Some(code));
                    proof {
                        assert(target == lc.cells()[i as int]);
                        assert(lc.cells()[i as int] == Cell::Str(ldict@[*c as int]@));
                        assert(list@[code as int]@ == ldict@[*c as int]@);
                    }
                },
                None => {
                    codes.push(None);
                    proof {
                        assert(target == lc.cells()[i as int]);
                        assert(lc.cells()[i as int] == Cell::Null);
                    }
                },
            },
            None => match pairs[r].1 {
                Some(j) => match &rcodes[j] {
                    Some(c) => {
                        let cu: u64 = rmap[*c];
                        proof {
                            assert(cu < ll);
                        }
                        let code: usize = cu as usize;
                        codes.push(Some(code));
                        proof {
                            assert(target == rc.cells()[j as int]);
                            assert(rc.cells()[j as int] == Cell::Str(rdict@[*c as int]@));
                            assert(list@[code as int]@ == rdict@[*c as int]@);
                        }
                    },
                    None => {
                        codes.push(None);
                        proof {
                            assert(target == rc.cells()[j as int]);
                            assert(rc.cells()[j as int] == Cell::Null);
                        }
                    },
                },
                None => {
                    codes.push(None);
                    proof {
                        assert(target == Cell::Null);
                    }
                },
            },
        }
        r = r + 1;
    }
    let out = ColumnData::Cats { codes, dict: list };
    proof {
        assert(out.cells() =~= coalesce_cells(lc.cells(), rc.cells(), pairs_view(pairs@)));
    }
    out
}

} // verus!
