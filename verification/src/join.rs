//! The join entry points: spec validation, key normalization, strategy
//! dispatch, build/probe orientation, matching, and result assembly.
//!
//! The contract of [`Table::join`] is [`join_contract`]: it pins down, for
//! every input, exactly which error is returned and on which inputs, and
//! for successful calls the full shape of the output table — its height,
//! column names, column types and every cell — in terms of the recursive
//! pair-sequence specifications of the matcher module.

use crate::assemble::{
    coalesce_cells, gather_both, gather_cells, gather_coalesced, gathered_ok, side_idx, slice_pairs,
    slice_seq,
};
use crate::matcher::{
    anti_pairs, cross_pairs, flip_pairs, flip_seq, frame_view, frame_wf, frames_p, inner_pairs,
    left_pairs, lemma_inner_congruence, lemma_left_congruence, lemma_outer_congruence,
    lemma_semi_anti_congruence, match_cross, match_inner, match_left, match_outer, match_semi_anti,
    outer_pairs, pair_view, pairs_in_bounds, pairs_view, rows_match, rows_match_exec, semi_pairs,
    transpose_p, GPair, IdxPair,
};
use crate::normalize::{encodes_pair, normalize_pair};
use crate::table::{Cell, Column, ColumnData, DataType, Table};
use vstd::prelude::*;
use vstd::string::StringExecFns;

verus! {

/// The nearest-match rule of an as-of join.
#[derive(Clone, Copy, Debug, PartialEq, Eq, Structural)]
pub enum AsofStrategy {
    /// The greatest right value not above the left value.
    Backward,
    /// The least right value not below the left value.
    Forward,
    /// The right value with the least distance; distance ties prefer the
    /// smaller right value.
    Nearest,
}

/// The options of an as-of join: the strategy, an optional absolute
/// tolerance on the distance, and optional equality ("by") keys that must
/// be supplied on both sides or neither.
#[derive(Debug)]
pub struct AsofOptions {
    pub strategy: AsofStrategy,
    pub tolerance: Option<i64>,
    pub left_by: Option<Vec<String>>,
    pub right_by: Option<Vec<String>>,
}

/// The join variant.
#[derive(Debug)]
pub enum JoinType {
    Inner,
    Left,
    Outer { coalesce: bool },
    Semi,
    Anti,
    AsOf(AsofOptions),
    Cross,
}

/// The permitted key duplication on each side, checked before matching.
#[derive(Clone, Copy, Debug, PartialEq, Eq, Structural)]
pub enum ValidationMode {
    ManyToMany,
    /// Keys must be unique on both sides.
    OneToOne,
    /// Keys must be unique on the left side.
    OneToMany,
    /// Keys must be unique on the right side.
    ManyToOne,
}

/// The arguments of one join call.
pub struct JoinSpec {
    pub how: JoinType,
    pub null_equality: bool,
    pub validation: ValidationMode,
    pub slice: Option<(usize, usize)>,
    pub suffix: Option<String>,
}

impl JoinSpec {
    /// A spec with the given variant and every other field defaulted: nulls
    /// never equal, no validation, no slice, the default suffix.
    pub fn new(how: JoinType) -> (r: JoinSpec)
        ensures
            r.how == how,
            !r.null_equality,
            r.validation == ValidationMode::ManyToMany,
            r.slice is None,
            r.suffix is None,
    {
        JoinSpec {
            how,
            null_equality: false,
            validation: ValidationMode::ManyToMany,
            slice: None,
            suffix: None,
        }
    }
}

/// The error taxonomy of a join call.  Every failure aborts the whole call
/// with no partial output.
#[derive(Debug)]
pub enum JoinError {
    /// Key-name lists of unequal length or empty, a key name that is not a
    /// column, or malformed as-of "by" arguments.
    InvalidInput,
    /// A key pair whose two columns have different logical types.
    TypeMismatch { left: String, left_dtype: DataType, right: String, right_dtype: DataType },
    /// A cardinality constraint of the validation mode is violated; names
    /// the violating side.
    ValidationError { left_side: bool },
    /// A key combination the engine does not support: an as-of join over a
    /// composite ordering key.
    UnsupportedCombination,
    /// A failure of the matching layer, or a residual output-name collision
    /// that the suffix did not resolve.
    ComputeError,
}

/// The first-occurrence column indices of the named keys; `-1` marks a
/// name the table does not have.
pub open spec fn resolved_keys(t: Table, names: Seq<String>) -> Seq<int> {
    Seq::new(names.len(), |k: int| find_name(t.spec_names(), names[k]@))
}

/// The first position of `name` among `names`, or `-1` when absent.
pub open spec fn find_name(names: Seq<Seq<char>>, name: Seq<char>) -> int
    decreases names.len(),
{
    if names.len() == 0 {
        -1
    } else if names[0] == name {
        0
    } else {
        let t = find_name(names.subrange(1, names.len() as int), name);
        if t < 0 {
            -1
        } else {
            t + 1
        }
    }
}

pub proof fn lemma_find_name(names: Seq<Seq<char>>, name: Seq<char>)
    ensures
        find_name(names, name) >= 0 ==> find_name(names, name) < names.len() && names[find_name(
            names,
            name,
        )] == name && (forall|q: int| 0 <= q < find_name(names, name) ==> names[q] != name),
        find_name(names, name) == -1 <==> (forall|q: int| 0 <= q < names.len() ==> names[q] != name),
        find_name(names, name) >= -1,
    decreases names.len(),
{
    if names.len() > 0 && names[0] != name {
        let tail = names.subrange(1, names.len() as int);
        lemma_find_name(tail, name);
        let t = find_name(tail, name);
        if t >= 0 {
            assert(names[t + 1] == tail[t]);
            assert forall|q: int| 0 <= q < t + 1 implies names[q] != name by {
                if q >= 1 {
                    assert(tail[q - 1] == names[q]);
                }
            }
        } else {
            assert forall|q: int| 0 <= q < names.len() implies names[q] != name by {
                if q >= 1 {
                    assert(tail[q - 1] == names[q]);
                }
            }
        }
    }
}

/// The last position of `x` in `s`, or `-1` when absent.
pub open spec fn find_int(s: Seq<int>, x: int) -> int
    decreases s.len(),
{
    if s.len() == 0 {
        -1
    } else if s.last() == x {
        s.len() - 1
    } else {
        find_int(s.drop_last(), x)
    }
}

/// The integer values of a vector of indices.
pub open spec fn idxs_of(v: Seq<usize>) -> Seq<int> {
    v.map_values(|x: usize| x as int)
}

/// Whether two logical cells match as key components: present cells match
/// when equal, two nulls match only under null equality, and a null never
/// matches a present cell.
pub open spec fn lcell_match(a: Cell, b: Cell, ne: bool) -> bool {
    if a == Cell::Null || b == Cell::Null {
        a == Cell::Null && b == Cell::Null && ne
    } else {
        a == b
    }
}

/// Whether left row `i` and right row `j` match on every resolved key pair.
pub open spec fn logical_rows_match(
    lt: Table,
    rt: Table,
    lk: Seq<int>,
    rk: Seq<int>,
    ne: bool,
    i: int,
    j: int,
) -> bool {
    forall|k: int|
        0 <= k < lk.len() ==> lcell_match(
            (#[trigger] lt.columns@[lk[k]]).data.cell(i),
            rt.columns@[rk[k]].data.cell(j),
            ne,
        )
}

/// The logical row-match predicate of the resolved keys.
pub open spec fn equi_pred(lt: Table, rt: Table, lk: Seq<int>, rk: Seq<int>, ne: bool) -> spec_fn(
    int,
    int,
) -> bool {
    |i: int, j: int| logical_rows_match(lt, rt, lk, rk, ne, i, j)
}

/// Whether key rows `i` and `j` of one side hold the same values, two
/// nulls counting as the same.
pub open spec fn key_rows_equal(t: Table, keys: Seq<int>, i: int, j: int) -> bool {
    forall|k: int|
        0 <= k < keys.len() ==> (#[trigger] t.columns@[keys[k]]).data.cell(i)
            == t.columns@[keys[k]].data.cell(j)
}

/// Whether a side holds two rows with equal key values.
pub open spec fn side_has_dup(t: Table, keys: Seq<int>) -> bool {
    exists|i: int, j: int| 0 <= i < j < t.height && #[trigger] key_rows_equal(t, keys, i, j)
}

/// Which side, if any, violates the cardinality constraint of the mode:
/// `Some(true)` names the left side, `Some(false)` the right.
pub open spec fn validation_fails(
    mode: ValidationMode,
    lt: Table,
    rt: Table,
    lk: Seq<int>,
    rk: Seq<int>,
) -> Option<bool> {
    match mode {
        ValidationMode::ManyToMany => None,
        ValidationMode::OneToOne => if side_has_dup(lt, lk) {
            Some(true)
        } else if side_has_dup(rt, rk) {
            Some(false)
        } else {
            None
        },
        ValidationMode::OneToMany => if side_has_dup(lt, lk) {
            Some(true)
        } else {
            None
        },
        ValidationMode::ManyToOne => if side_has_dup(rt, rk) {
            Some(false)
        } else {
            None
        },
    }
}

/// The first key position whose two columns disagree in logical type, or
/// `-1` when they all agree.
pub open spec fn first_mismatch_from(lt: Table, rt: Table, lk: Seq<int>, rk: Seq<int>, k: int) -> int
    decreases lk.len() - k,
{
    if k < 0 || k >= lk.len() {
        -1
    } else if lt.columns@[lk[k]].data.spec_dtype() != rt.columns@[rk[k]].data.spec_dtype() {
        k
    } else {
        first_mismatch_from(lt, rt, lk, rk, k + 1)
    }
}

/// When no mismatch is found from `k` on, every later key pair agrees.
pub proof fn lemma_first_mismatch_none(lt: Table, rt: Table, lk: Seq<int>, rk: Seq<int>, k: int)
    requires
        0 <= k,
        lk.len() == rk.len(),
        first_mismatch_from(lt, rt, lk, rk, k) == -1,
    ensures
        forall|q: int|
            k <= q < lk.len() ==> (#[trigger] lt.columns@[lk[q]]).data.spec_dtype()
                == rt.columns@[rk[q]].data.spec_dtype(),
    decreases lk.len() - k,
{
    if k < lk.len() {
        lemma_first_mismatch_none(lt, rt, lk, rk, k + 1);
    }
}

/// The ascending column indices below `w` that are not key indices.
pub open spec fn kept_idx(w: int, rk: Seq<int>) -> Seq<int>
    decreases w,
{
    if w <= 0 {
        Seq::empty()
    } else if rk.contains(w - 1) {
        kept_idx(w - 1, rk)
    } else {
        kept_idx(w - 1, rk).push(w - 1)
    }
}

/// The collision-resolved output name of a right column: the suffix is
/// appended once when the name is also a left column name.
pub open spec fn resolved(lnames: Seq<Seq<char>>, nm: Seq<char>, sfx: Seq<char>) -> Seq<char> {
    if lnames.contains(nm) {
        nm + sfx
    } else {
        nm
    }
}

/// Whether a name occurs twice.
pub open spec fn has_dup_names(names: Seq<Seq<char>>) -> bool {
    exists|a: int, b: int| 0 <= a < b < names.len() && names[a] == names[b]
}

/// The suffix in force: the configured one, else the default marker.
pub open spec fn suffix_view(sfx: Option<String>) -> Seq<char> {
    match sfx {
        Some(s) => s@,
        None => "_right"@,
    }
}

/// The right-column indices an output keeps, by join variant: none for
/// semi and anti joins, all for cross and plain outer joins, and the
/// non-key columns otherwise.  An as-of join also consumes its right "by"
/// columns, which the caller folds into `rk`.
pub open spec fn kept_right(how: JoinType, w: int, rk: Seq<int>) -> Seq<int> {
    match how {
        JoinType::Semi => Seq::empty(),
        JoinType::Anti => Seq::empty(),
        JoinType::Cross => kept_idx(w, Seq::empty()),
        JoinType::Outer { coalesce } => if coalesce {
            kept_idx(w, rk)
        } else {
            kept_idx(w, Seq::empty())
        },
        _ => kept_idx(w, rk),
    }
}

/// The absolute value.
pub open spec fn iabs(x: int) -> int {
    if x < 0 {
        -x
    } else {
        x
    }
}

/// Whether right row `j` is a candidate as-of match of left row `i`: both
/// ordering values present, the "by" keys matching, the value on the
/// strategy's side of the left value, and within tolerance.
pub open spec fn asof_cand(
    lv: Seq<Option<i64>>,
    rv: Seq<Option<i64>>,
    byp: spec_fn(int, int) -> bool,
    strat: AsofStrategy,
    tol: Option<i64>,
    i: int,
    j: int,
) -> bool {
    &&& lv[i] is Some
    &&& rv[j] is Some
    &&& byp(i, j)
    &&& match strat {
        AsofStrategy::Backward => rv[j]->0 <= lv[i]->0,
        AsofStrategy::Forward => rv[j]->0 >= lv[i]->0,
        AsofStrategy::Nearest => true,
    }
    &&& match tol {
        Some(t) => iabs(lv[i]->0 - rv[j]->0) <= t,
        None => true,
    }
}

/// Whether candidate `j1` beats candidate `j2` strictly, per strategy;
/// on a full tie the earlier-scanned candidate is kept.
pub open spec fn asof_better(
    lv: Seq<Option<i64>>,
    rv: Seq<Option<i64>>,
    strat: AsofStrategy,
    i: int,
    j1: int,
    j2: int,
) -> bool {
    match strat {
        AsofStrategy::Backward => rv[j1]->0 > rv[j2]->0,
        AsofStrategy::Forward => rv[j1]->0 < rv[j2]->0,
        AsofStrategy::Nearest => iabs(lv[i]->0 - rv[j1]->0) < iabs(lv[i]->0 - rv[j2]->0) || (iabs(
            lv[i]->0 - rv[j1]->0,
        ) == iabs(lv[i]->0 - rv[j2]->0) && rv[j1]->0 < rv[j2]->0),
    }
}

/// The best as-of match of left row `i` among the first `m` right rows:
/// a left-to-right scan keeping the strictly better candidate.
pub open spec fn asof_fold(
    lv: Seq<Option<i64>>,
    rv: Seq<Option<i64>>,
    byp: spec_fn(int, int) -> bool,
    strat: AsofStrategy,
    tol: Option<i64>,
    i: int,
    m: int,
) -> Option<int>
    decreases m,
{
    if m <= 0 {
        None
    } else {
        let prev = asof_fold(lv, rv, byp, strat, tol, i, m - 1);
        if !asof_cand(lv, rv, byp, strat, tol, i, m - 1) {
            prev
        } else {
            match prev {
                None => Some(m - 1),
                Some(b) => if asof_better(lv, rv, strat, i, m - 1, b) {
                    Some(m - 1)
                } else {
                    prev
                },
            }
        }
    }
}

/// As-of join: every left row once, in order, with its best match if any.
pub open spec fn asof_pairs(
    lv: Seq<Option<i64>>,
    rv: Seq<Option<i64>>,
    byp: spec_fn(int, int) -> bool,
    strat: AsofStrategy,
    tol: Option<i64>,
    n: int,
    m: int,
) -> Seq<GPair> {
    Seq::new(
        n as nat,
        |i: int| ((Some(i)), asof_fold(lv, rv, byp, strat, tol, i, m)),
    )
}

/// The as-of scan depends on the "by" predicate only within the ranges.
pub proof fn lemma_asof_fold_congruence(
    lv: Seq<Option<i64>>,
    rv: Seq<Option<i64>>,
    b1: spec_fn(int, int) -> bool,
    b2: spec_fn(int, int) -> bool,
    strat: AsofStrategy,
    tol: Option<i64>,
    i: int,
    m: int,
)
    requires
        forall|j: int| 0 <= j < m ==> #[trigger] b1(i, j) == b2(i, j),
    ensures
        asof_fold(lv, rv, b1, strat, tol, i, m) == asof_fold(lv, rv, b2, strat, tol, i, m),
    decreases m,
{
    if m > 0 {
        lemma_asof_fold_congruence(lv, rv, b1, b2, strat, tol, i, m - 1);
    }
}

/// The integer values of a column known to hold integers.
pub open spec fn ints_of(d: ColumnData) -> Seq<Option<i64>> {
    match d {
        ColumnData::Ints(v) => v@,
        _ => Seq::empty(),
    }
}

/// The pair sequence of one join call, before slicing, per variant.  The
/// inner join hashes the smaller side: when the left side is smaller the
/// sides are swapped for matching and the emitted pairs flipped back, so
/// its row order is right-major in that case.  Ties keep the caller
/// orientation.
pub open spec fn join_pairs_of(
    how: JoinType,
    lt: Table,
    rt: Table,
    lk: Seq<int>,
    rk: Seq<int>,
    lbk: Seq<int>,
    rbk: Seq<int>,
    ne: bool,
) -> Seq<GPair> {
    let p = equi_pred(lt, rt, lk, rk, ne);
    let n = lt.height as int;
    let m = rt.height as int;
    match how {
        JoinType::Inner => if n < m {
            flip_seq(inner_pairs(transpose_p(p), m, n))
        } else {
            inner_pairs(p, n, m)
        },
        JoinType::Left => left_pairs(p, n, m),
        JoinType::Outer { .. } => outer_pairs(p, n, m),
        JoinType::Semi => semi_pairs(p, n, m),
        JoinType::Anti => anti_pairs(p, n, m),
        JoinType::Cross => cross_pairs(n, m),
        JoinType::AsOf(opts) => asof_pairs(
            ints_of(lt.columns@[lk[0]].data),
            ints_of(rt.columns@[rk[0]].data),
            equi_pred(lt, rt, lbk, rbk, false),
            opts.strategy,
            opts.tolerance,
            n,
            m,
        ),
    }
}

/// The slice applied to a pair sequence, when one is configured.
pub open spec fn applied_slice(ps: Seq<GPair>, sl: Option<(usize, usize)>) -> Seq<GPair> {
    match sl {
        Some((o, l)) => slice_seq(ps, o as int, l as int),
        None => ps,
    }
}

/// The shape of one output column taken from the left table: under outer
/// coalescing a key column holds the coalesced key pair (the right side of
/// its last key occurrence), any other column holds the left gather.
pub open spec fn left_out_col_ok(
    c: Column,
    lt: Table,
    rt: Table,
    lk: Seq<int>,
    rk: Seq<int>,
    ps: Seq<GPair>,
    do_coalesce: bool,
    k: int,
) -> bool {
    let q = find_int(lk, k);
    let src = lt.columns@[k];
    &&& c.name@ == src.name@
    &&& c.wf()
    &&& c.data.spec_len() == ps.len()
    &&& c.data.spec_dtype() == src.data.spec_dtype()
    &&& if do_coalesce && q >= 0 {
        c.data.cells() == coalesce_cells(src.data.cells(), rt.columns@[rk[q]].data.cells(), ps)
    } else {
        c.data.cells() == gather_cells(src.data.cells(), side_idx(ps, true))
    }
}

/// The shape of one kept right output column: the right gather under its
/// collision-resolved name.
pub open spec fn right_out_col_ok(
    c: Column,
    lt: Table,
    rt: Table,
    src_idx: int,
    ps: Seq<GPair>,
    sfx: Seq<char>,
) -> bool {
    let src = rt.columns@[src_idx];
    &&& c.name@ == resolved(lt.spec_names(), src.name@, sfx)
    &&& c.wf()
    &&& c.data.spec_len() == ps.len()
    &&& c.data.spec_dtype() == src.data.spec_dtype()
    &&& c.data.cells() == gather_cells(src.data.cells(), side_idx(ps, false))
}

/// The full shape of a successful join output.
pub open spec fn output_matches(
    out: Table,
    lt: Table,
    rt: Table,
    lk: Seq<int>,
    rk: Seq<int>,
    keptr: Seq<int>,
    ps: Seq<GPair>,
    sfx: Seq<char>,
    do_coalesce: bool,
) -> bool {
    &&& out.wf()
    &&& out.height == ps.len()
    &&& out.columns@.len() == lt.columns@.len() + keptr.len()
    &&& forall|k: int|
        0 <= k < lt.columns@.len() ==> left_out_col_ok(
            #[trigger] out.columns@[k],
            lt,
            rt,
            lk,
            rk,
            ps,
            do_coalesce,
            k,
        )
    &&& forall|k: int|
        0 <= k < keptr.len() ==> right_out_col_ok(
            #[trigger] out.columns@[lt.columns@.len() + k],
            lt,
            rt,
            keptr[k],
            ps,
            sfx,
        )
}

/// Whether the as-of "by" arguments are malformed: supplied on exactly one
/// side, of unequal lengths, or naming absent columns.
pub open spec fn asof_by_invalid(lt: Table, rt: Table, opts: AsofOptions) -> bool {
    match (opts.left_by, opts.right_by) {
        (Option::None, Option::None) => false,
        (Option::Some(lb), Option::Some(rb)) => {
            ||| lb@.len() != rb@.len()
            ||| exists|k: int|
                0 <= k < lb@.len() && (find_name(lt.spec_names(), lb@[k]@) < 0 || find_name(
                    rt.spec_names(),
                    rb@[k]@,
                ) < 0)
        },
        _ => true,
    }
}

/// The resolved "by" key indices of one side (empty without "by" keys).
pub open spec fn by_indices(t: Table, by: Option<Vec<String>>) -> Seq<int> {
    match by {
        Some(b) => Seq::new(b@.len(), |k: int| find_name(t.spec_names(), b@[k]@)),
        None => Seq::empty(),
    }
}

/// The whole behavior of [`Table::join`]: which error is returned on which
/// inputs, in check order — key-list lengths and missing names, the
/// cardinality validation, key type agreement, the variant-specific as-of
/// checks, the residual-name check — and the exact output shape on
/// success.  A cross join bypasses every key-related check.
pub open spec fn join_contract(
    lt: Table,
    rt: Table,
    lon: Seq<String>,
    ron: Seq<String>,
    sp: JoinSpec,
    r: Result<Table, JoinError>,
) -> bool {
    let lk = resolved_keys(lt, lon);
    let rk = resolved_keys(rt, ron);
    let sfx = suffix_view(sp.suffix);
    if sp.how is Cross {
        join_assembled(lt, rt, Seq::empty(), Seq::empty(), Seq::empty(), Seq::empty(), sp, r)
    } else if lon.len() != ron.len() || lon.len() == 0 {
        r == Result::<Table, JoinError>::Err(JoinError::InvalidInput)
    } else if !(forall|k: int| 0 <= k < lk.len() ==> (#[trigger] lk[k]) >= 0) || !(forall|k: int|
        0 <= k < rk.len() ==> (#[trigger] rk[k]) >= 0) {
        r == Result::<Table, JoinError>::Err(JoinError::InvalidInput)
    } else if validation_fails(sp.validation, lt, rt, lk, rk) is Some {
        r == Result::<Table, JoinError>::Err(
            JoinError::ValidationError {
                left_side: validation_fails(sp.validation, lt, rt, lk, rk)->0,
            },
        )
    } else if first_mismatch_from(lt, rt, lk, rk, 0) >= 0 {
        let k = first_mismatch_from(lt, rt, lk, rk, 0);
        r matches Result::<Table, JoinError>::Err(JoinError::TypeMismatch {
            left,
            left_dtype,
            right,
            right_dtype,
        }) && left@ == lon[k]@ && left_dtype == lt.columns@[lk[k]].data.spec_dtype() && right@
            == ron[k]@ && right_dtype == rt.columns@[rk[k]].data.spec_dtype()
    } else {
        match sp.how {
            JoinType::AsOf(opts) => if lon.len() != 1 {
                r == Result::<Table, JoinError>::Err(JoinError::UnsupportedCombination)
            } else if asof_by_invalid(lt, rt, opts) {
                r == Result::<Table, JoinError>::Err(JoinError::InvalidInput)
            } else {
                let lbk = by_indices(lt, opts.left_by);
                let rbk = by_indices(rt, opts.right_by);
                if first_mismatch_from(lt, rt, lbk, rbk, 0) >= 0 {
                    r is Err && r->Err_0 matches JoinError::TypeMismatch { .. }
                } else if !(lt.columns@[lk[0]].data.spec_dtype() == DataType::Int
                    && rt.columns@[rk[0]].data.spec_dtype() == DataType::Int) {
                    r == Result::<Table, JoinError>::Err(JoinError::ComputeError)
                } else {
                    join_assembled(lt, rt, lk, rk, lbk, rbk, sp, r)
                }
            },
            _ => join_assembled(lt, rt, lk, rk, Seq::empty(), Seq::empty(), sp, r),
        }
    }
}

/// The tail of the contract once every fail-fast check has passed: either
/// a residual name collision, reported as a compute failure, or the exact
/// assembled output.
pub open spec fn join_assembled(
    lt: Table,
    rt: Table,
    lk: Seq<int>,
    rk: Seq<int>,
    lbk: Seq<int>,
    rbk: Seq<int>,
    sp: JoinSpec,
    r: Result<Table, JoinError>,
) -> bool {
    let sfx = suffix_view(sp.suffix);
    let consumed = rk + rbk;
    let keptr = kept_right(sp.how, rt.columns@.len() as int, consumed);
    let outnames = lt.spec_names() + Seq::new(
        keptr.len(),
        |k: int| resolved(lt.spec_names(), rt.spec_names()[keptr[k]], sfx),
    );
    if has_dup_names(outnames) {
        r == Result::<Table, JoinError>::Err(JoinError::ComputeError)
    } else {
        let ps = applied_slice(
            join_pairs_of(sp.how, lt, rt, lk, rk, lbk, rbk, sp.null_equality),
            sp.slice,
        );
        let do_coalesce = sp.how matches JoinType::Outer { coalesce: true };
        r matches Result::<Table, JoinError>::Ok(out) && output_matches(
            out,
            lt,
            rt,
            lk,
            rk,
            keptr,
            ps,
            sfx,
            do_coalesce,
        )
    }
}

/// Every kept right-column index lies below the right width.
pub proof fn lemma_kept_idx_bounds(w: int, rk: Seq<int>)
    ensures
        forall|k: int| 0 <= k < kept_idx(w, rk).len() ==> 0 <= #[trigger] kept_idx(w, rk)[k] < w,
    decreases w,
{
    if w > 0 {
        lemma_kept_idx_bounds(w - 1, rk);
        assert forall|k: int|
            0 <= k < kept_idx(w, rk).len() implies 0 <= #[trigger] kept_idx(w, rk)[k] < w by {
            if !rk.contains(w - 1) && k == kept_idx(w, rk).len() - 1 {
                assert(kept_idx(w, rk)[k] == w - 1);
            } else {
                assert(kept_idx(w, rk)[k] == kept_idx(w - 1, rk)[k]);
            }
        }
    }
}

/// Slicing law: a join with `slice = (offset, len)` returns exactly rows
/// `[offset, offset + len)` of the corresponding unsliced join — the same
/// column names, each column's cells the clipped row range of the
/// unsliced column's cells.
pub proof fn lemma_join_slice_law(
    lt: Table,
    rt: Table,
    lon: Seq<String>,
    ron: Seq<String>,
    sp: JoinSpec,
    sp_sliced: JoinSpec,
    offset: usize,
    len: usize,
    r_full: Result<Table, JoinError>,
    r_sliced: Result<Table, JoinError>,
)
    requires
        sp.slice is None,
        sp_sliced.how == sp.how,
        sp_sliced.null_equality == sp.null_equality,
        sp_sliced.validation == sp.validation,
        sp_sliced.suffix == sp.suffix,
        sp_sliced.slice == Some((offset, len)),
        join_contract(lt, rt, lon, ron, sp, r_full),
        join_contract(lt, rt, lon, ron, sp_sliced, r_sliced),
        r_full is Ok,
        r_sliced is Ok,
    ensures
        ({
            let full = r_full->Ok_0;
            let sliced = r_sliced->Ok_0;
            &&& sliced.columns@.len() == full.columns@.len()
            &&& sliced.spec_names() == full.spec_names()
            &&& forall|k: int|
                0 <= k < full.columns@.len() ==> (#[trigger] sliced.columns@[k]).data.cells()
                    == crate::assemble::slice_cells(
                    full.columns@[k].data.cells(),
                    offset as int,
                    len as int,
                )
        }),
{
    let full = r_full->Ok_0;
    let sliced = r_sliced->Ok_0;
    let cross = sp.how is Cross;
    let lk = if cross {
        Seq::<int>::empty()
    } else {
        resolved_keys(lt, lon)
    };
    let rk = if cross {
        Seq::<int>::empty()
    } else {
        resolved_keys(rt, ron)
    };
    let lbk = match sp.how {
        JoinType::AsOf(o) => by_indices(lt, o.left_by),
        _ => Seq::<int>::empty(),
    };
    let rbk = match sp.how {
        JoinType::AsOf(o) => by_indices(rt, o.right_by),
        _ => Seq::<int>::empty(),
    };
    let ps0 = join_pairs_of(sp.how, lt, rt, lk, rk, lbk, rbk, sp.null_equality);
    let pss = slice_seq(ps0, offset as int, len as int);
    let lw = lt.columns@.len() as int;
    let consumed = rk + rbk;
    let keptr = kept_right(sp.how, rt.columns@.len() as int, consumed);
    let sfx = suffix_view(sp.suffix);
    let do_coalesce = sp.how matches JoinType::Outer { coalesce: true };
    assert(output_matches(full, lt, rt, lk, rk, keptr, ps0, sfx, do_coalesce));
    assert(output_matches(sliced, lt, rt, lk, rk, keptr, pss, sfx, do_coalesce));
    lemma_kept_idx_bounds(rt.columns@.len() as int, consumed);
    lemma_kept_idx_bounds(rt.columns@.len() as int, Seq::<int>::empty());
    assert forall|k: int|
        0 <= k < full.columns@.len() implies (#[trigger] sliced.columns@[k]).data.cells()
        == crate::assemble::slice_cells(
        full.columns@[k].data.cells(),
        offset as int,
        len as int,
    ) by {
        if k < lw {
            assert(left_out_col_ok(full.columns@[k], lt, rt, lk, rk, ps0, do_coalesce, k));
            assert(left_out_col_ok(sliced.columns@[k], lt, rt, lk, rk, pss, do_coalesce, k));
            let q = find_int(lk, k);
            let src = lt.columns@[k];
            if do_coalesce && q >= 0 {
                crate::assemble::lemma_slice_coalesce(
                    src.data.cells(),
                    rt.columns@[rk[q]].data.cells(),
                    ps0,
                    offset as int,
                    len as int,
                );
            } else {
                crate::assemble::lemma_slice_gather(
                    src.data.cells(),
                    ps0,
                    offset as int,
                    len as int,
                    true,
                );
            }
        } else {
            let kk = k - lw;
            assert(right_out_col_ok(full.columns@[lw + kk], lt, rt, keptr[kk], ps0, sfx));
            assert(right_out_col_ok(sliced.columns@[lw + kk], lt, rt, keptr[kk], pss, sfx));
            crate::assemble::lemma_slice_gather(
                rt.columns@[keptr[kk]].data.cells(),
                ps0,
                offset as int,
                len as int,
                false,
            );
        }
    }
    assert forall|k: int|
        0 <= k < full.columns@.len() implies #[trigger] sliced.spec_names()[k]
        == full.spec_names()[k] by {
        if k < lw {
            assert(left_out_col_ok(full.columns@[k], lt, rt, lk, rk, ps0, do_coalesce, k));
            assert(left_out_col_ok(sliced.columns@[k], lt, rt, lk, rk, pss, do_coalesce, k));
        } else {
            let kk = k - lw;
            assert(right_out_col_ok(full.columns@[lw + kk], lt, rt, keptr[kk], ps0, sfx));
            assert(right_out_col_ok(sliced.columns@[lw + kk], lt, rt, keptr[kk], pss, sfx));
        }
    }
    assert(sliced.spec_names() =~= full.spec_names());
}

/// Resolves column names to first-occurrence indices, or `None` when one
/// is absent.
fn resolve_indices(t: &Table, names: &Vec<String>) -> (r: Option<Vec<usize>>)
    ensures
        r is Some <==> (forall|k: int|
            0 <= k < names@.len() ==> find_name(t.spec_names(), names@[k]@) >= 0),
        r is None ==> !(forall|k: int|
            0 <= k < resolved_keys(*t, names@).len() ==> (#[trigger] resolved_keys(
                *t,
                names@,
            )[k]) >= 0),
        r matches Some(v) ==> {
            &&& v@.len() == names@.len()
            &&& forall|k: int|
                0 <= k < v@.len() ==> (#[trigger] v@[k]) as int == find_name(
                    t.spec_names(),
                    names@[k]@,
                ) && v@[k] < t.columns@.len()
        },
{
    let n = names.len();
    let mut out: Vec<usize> = Vec::new();
    let mut k: usize = 0;
    while k < n
        invariant
            k <= n,
            n == names@.len(),
            out@.len() == k,
            forall|q: int|
                0 <= q < k ==> (#[trigger] out@[q]) as int == find_name(
                    t.spec_names(),
                    names@[q]@,
                ) && out@[q] < t.columns@.len(),
        decreases n - k,
    {
        proof {
            lemma_find_name(t.spec_names(), names@[k as int]@);
        }
        match t.find_col(&names[k]) {
            Some(idx) => {
                proof {
                    let f = find_name(t.spec_names(), names@[k as int]@);
                    assert(t.spec_names()[idx as int] == names@[k as int]@);
                    assert(f >= 0);
                    if f < idx {
                        assert(t.spec_names()[f] == names@[k as int]@);
                        assert(false);
                    }
                    if idx < f {
                        assert(t.spec_names()[idx as int] == names@[k as int]@);
                        assert(false);
                    }
                }
                out.push(idx);
            },
            None => {
                proof {
                    assert(find_name(t.spec_names(), names@[k as int]@) == -1);
                    assert(resolved_keys(*t, names@)[k as int] == -1);
                }
                return None;
            },
        }
        k = k + 1;
    }
    proof {
        assert forall|q: int|
            0 <= q < names@.len() implies find_name(t.spec_names(), names@[q]@) >= 0 by {
            assert(out@[q] as int == find_name(t.spec_names(), names@[q]@));
        }
    }
    Some(out)
}

/// Whether the table has a column of this name.
fn table_has_name(t: &Table, s: &String) -> (r: bool)
    ensures
        r == t.spec_names().contains(s@),
{
    let n = t.columns.len();
    let mut k: usize = 0;
    while k < n
        invariant
            k <= n,
            n == t.columns@.len(),
            forall|q: int| 0 <= q < k ==> t.spec_names()[q] != s@,
        decreases n - k,
    {
        if t.columns[k].name.eq(s) {
            proof {
                assert(t.spec_names()[k as int] == s@);
            }
            return true;
        }
        k = k + 1;
    }
    proof {
        if t.spec_names().contains(s@) {
            let q = choose|q: int| 0 <= q < t.spec_names().len() && t.spec_names()[q] == s@;
            assert(false);
        }
    }
    false
}

/// Whether key rows `i` and `j` of one side hold the same values.
fn rows_equal_on(t: &Table, keys: &Vec<usize>, i: usize, j: usize) -> (r: bool)
    requires
        t.wf(),
        forall|k: int| 0 <= k < keys@.len() ==> (#[trigger] keys@[k]) < t.columns@.len(),
        i < t.height,
        j < t.height,
    ensures
        r == key_rows_equal(*t, idxs_of(keys@), i as int, j as int),
{
    let n = keys.len();
    let mut k: usize = 0;
    let mut ok: bool = true;
    while k < n
        invariant
            k <= n,
            n == keys@.len(),
            t.wf(),
            forall|q: int| 0 <= q < keys@.len() ==> (#[trigger] keys@[q]) < t.columns@.len(),
            i < t.height,
            j < t.height,
            ok == forall|q: int|
                0 <= q < k ==> (#[trigger] t.columns@[idxs_of(keys@)[q]]).data.cell(i as int)
                    == t.columns@[idxs_of(keys@)[q]].data.cell(j as int),
        decreases n - k,
    {
        let c = t.columns[keys[k]].data.cells_eq(i, j);
        proof {
            assert(idxs_of(keys@)[k as int] == keys@[k as int] as int);
        }
        ok = ok && c;
        k = k + 1;
    }
    ok
}

/// Whether a side holds two rows with equal key values.
fn side_dup(t: &Table, keys: &Vec<usize>) -> (r: bool)
    requires
        t.wf(),
        forall|k: int| 0 <= k < keys@.len() ==> (#[trigger] keys@[k]) < t.columns@.len(),
    ensures
        r == side_has_dup(*t, idxs_of(keys@)),
{
    let n = t.height();
    let mut i: usize = 0;
    while i < n
        invariant
            i <= n,
            n == t.height,
            t.wf(),
            forall|k: int| 0 <= k < keys@.len() ==> (#[trigger] keys@[k]) < t.columns@.len(),
            forall|a: int, b: int|
                0 <= a < b < n && a < i ==> !(#[trigger] key_rows_equal(
                    *t,
                    idxs_of(keys@),
                    a,
                    b,
                )),
        decreases n - i,
    {
        let mut j: usize = i + 1;
        while j < n
            invariant
                i < j,
                i < n,
                j <= n,
                n == t.height,
                t.wf(),
                forall|k: int| 0 <= k < keys@.len() ==> (#[trigger] keys@[k]) < t.columns@.len(),
                forall|a: int, b: int|
                    0 <= a < b < n && a < i ==> !(#[trigger] key_rows_equal(
                        *t,
                        idxs_of(keys@),
                        a,
                        b,
                    )),
                forall|b: int|
                    i < b < j ==> !(#[trigger] key_rows_equal(*t, idxs_of(keys@), i as int, b)),
            decreases n - j,
        {
            if rows_equal_on(t, keys, i, j) {
                return true;
            }
            j = j + 1;
        }
        i = i + 1;
    }
    proof {
        if side_has_dup(*t, idxs_of(keys@)) {
            let (a, b) = choose|a: int, b: int|
                0 <= a < b < t.height && #[trigger] key_rows_equal(*t, idxs_of(keys@), a, b);
            assert(false);
        }
    }
    false
}

/// The first key position whose columns disagree in logical type.
fn first_mismatch_exec(lt: &Table, rt: &Table, lkeys: &Vec<usize>, rkeys: &Vec<usize>) -> (r:
    Option<usize>)
    requires
        lkeys@.len() == rkeys@.len(),
        forall|k: int| 0 <= k < lkeys@.len() ==> (#[trigger] lkeys@[k]) < lt.columns@.len(),
        forall|k: int| 0 <= k < rkeys@.len() ==> (#[trigger] rkeys@[k]) < rt.columns@.len(),
    ensures
        r matches Some(k) ==> k < lkeys@.len() && k as int == first_mismatch_from(
            *lt,
            *rt,
            idxs_of(lkeys@),
            idxs_of(rkeys@),
            0,
        ),
        r is None ==> first_mismatch_from(*lt, *rt, idxs_of(lkeys@), idxs_of(rkeys@), 0) == -1,
{
    let n = lkeys.len();
    let mut k: usize = 0;
    while k < n
        invariant
            k <= n,
            n == lkeys@.len(),
            lkeys@.len() == rkeys@.len(),
            forall|q: int| 0 <= q < lkeys@.len() ==> (#[trigger] lkeys@[q]) < lt.columns@.len(),
            forall|q: int| 0 <= q < rkeys@.len() ==> (#[trigger] rkeys@[q]) < rt.columns@.len(),
            first_mismatch_from(*lt, *rt, idxs_of(lkeys@), idxs_of(rkeys@), 0)
                == first_mismatch_from(*lt, *rt, idxs_of(lkeys@), idxs_of(rkeys@), k as int),
        decreases n - k,
    {
        let ld = lt.columns[lkeys[k]].data.dtype();
        let rd = rt.columns[rkeys[k]].data.dtype();
        proof {
            assert(idxs_of(lkeys@)[k as int] == lkeys@[k as int] as int);
            assert(idxs_of(rkeys@)[k as int] == rkeys@[k as int] as int);
        }
        if ld != rd {
            return Some(k);
        }
        k = k + 1;
    }
    None
}

/// Builds the physical key frames of the resolved key pairs.
fn build_frames(lt: &Table, rt: &Table, lkeys: &Vec<usize>, rkeys: &Vec<usize>) -> (r: (
    Vec<Vec<Option<u64>>>,
    Vec<Vec<Option<u64>>>,
))
    requires
        lt.wf(),
        rt.wf(),
        lkeys@.len() == rkeys@.len(),
        forall|k: int| 0 <= k < lkeys@.len() ==> (#[trigger] lkeys@[k]) < lt.columns@.len(),
        forall|k: int| 0 <= k < rkeys@.len() ==> (#[trigger] rkeys@[k]) < rt.columns@.len(),
        forall|k: int|
            0 <= k < lkeys@.len() ==> (#[trigger] lt.columns@[lkeys@[k] as int]).data.spec_dtype()
                == rt.columns@[rkeys@[k] as int].data.spec_dtype(),
    ensures
        r.0@.len() == lkeys@.len(),
        r.1@.len() == rkeys@.len(),
        frame_wf(frame_view(&r.0), lt.height as int),
        frame_wf(frame_view(&r.1), rt.height as int),
        forall|k: int|
            0 <= k < lkeys@.len() ==> encodes_pair(
                lt.columns@[lkeys@[k] as int].data,
                rt.columns@[rkeys@[k] as int].data,
                (#[trigger] frame_view(&r.0)[k]),
                frame_view(&r.1)[k],
            ),
{
    let n = lkeys.len();
    let mut lf: Vec<Vec<Option<u64>>> = Vec::new();
    let mut rf: Vec<Vec<Option<u64>>> = Vec::new();
    let mut k: usize = 0;
    while k < n
        invariant
            k <= n,
            n == lkeys@.len(),
            lkeys@.len() == rkeys@.len(),
            lt.wf(),
            rt.wf(),
            forall|q: int| 0 <= q < lkeys@.len() ==> (#[trigger] lkeys@[q]) < lt.columns@.len(),
            forall|q: int| 0 <= q < rkeys@.len() ==> (#[trigger] rkeys@[q]) < rt.columns@.len(),
            forall|q: int|
                0 <= q < lkeys@.len() ==> (#[trigger] lt.columns@[lkeys@[q] as int]).data.spec_dtype()
                    == rt.columns@[rkeys@[q] as int].data.spec_dtype(),
            lf@.len() == k,
            rf@.len() == k,
            forall|q: int| 0 <= q < k ==> (#[trigger] lf@[q])@.len() == lt.height,
            forall|q: int| 0 <= q < k ==> (#[trigger] rf@[q])@.len() == rt.height,
            forall|q: int|
                0 <= q < k ==> encodes_pair(
                    lt.columns@[lkeys@[q] as int].data,
                    rt.columns@[rkeys@[q] as int].data,
                    (#[trigger] lf@[q])@,
                    rf@[q]@,
                ),
        decreases n - k,
    {
        let (lp, rp) = normalize_pair(&lt.columns[lkeys[k]].data, &rt.columns[rkeys[k]].data);
        lf.push(lp);
        rf.push(rp);
        k = k + 1;
    }
    proof {
        assert forall|q: int| 0 <= q < n implies encodes_pair(
            lt.columns@[lkeys@[q] as int].data,
            rt.columns@[rkeys@[q] as int].data,
            (#[trigger] frame_view(&lf)[q]),
            frame_view(&rf)[q],
        ) by {
            assert(frame_view(&lf)[q] == lf@[q]@);
            assert(frame_view(&rf)[q] == rf@[q]@);
        }
        assert forall|q: int| 0 <= q < frame_view(&lf).len() implies (#[trigger] frame_view(&lf)[q]).len()
            == lt.height by {
            assert(frame_view(&lf)[q] == lf@[q]@);
        }
        assert forall|q: int| 0 <= q < frame_view(&rf).len() implies (#[trigger] frame_view(&rf)[q]).len()
            == rt.height by {
            assert(frame_view(&rf)[q] == rf@[q]@);
        }
    }
    (lf, rf)
}

/// Physical row matching over encoded frames agrees with logical row
/// matching over the source key columns, row pair for row pair.
proof fn lemma_frames_match_logical(
    lt: Table,
    rt: Table,
    lk: Seq<int>,
    rk: Seq<int>,
    ne: bool,
    lfv: Seq<Seq<Option<u64>>>,
    rfv: Seq<Seq<Option<u64>>>,
    i: int,
    j: int,
)
    requires
        lt.wf(),
        rt.wf(),
        lfv.len() == lk.len(),
        rfv.len() == rk.len(),
        lk.len() == rk.len(),
        forall|k: int| 0 <= k < lk.len() ==> 0 <= #[trigger] lk[k] < lt.columns@.len(),
        forall|k: int| 0 <= k < rk.len() ==> 0 <= #[trigger] rk[k] < rt.columns@.len(),
        forall|k: int|
            0 <= k < lk.len() ==> encodes_pair(
                lt.columns@[lk[k]].data,
                rt.columns@[rk[k]].data,
                (#[trigger] lfv[k]),
                rfv[k],
            ),
        0 <= i < lt.height,
        0 <= j < rt.height,
    ensures
        rows_match(lfv, rfv, i, j, ne) == logical_rows_match(lt, rt, lk, rk, ne, i, j),
{
    assert forall|k: int|
        0 <= k < lk.len() implies crate::matcher::cell_match(
        (#[trigger] lfv[k])[i],
        rfv[k][j],
        ne,
    ) == lcell_match(lt.columns@[lk[k]].data.cell(i), rt.columns@[rk[k]].data.cell(j), ne) by {
        let ld = lt.columns@[lk[k]].data;
        let rd = rt.columns@[rk[k]].data;
        assert(lfv[k].len() == ld.spec_len());
        assert(rfv[k].len() == rd.spec_len());
        assert(lfv[k][i] is Some <==> ld.cell(i) != Cell::Null);
        assert(rfv[k][j] is Some <==> rd.cell(j) != Cell::Null);
        if lfv[k][i] is Some && rfv[k][j] is Some {
            assert((lfv[k][i] == rfv[k][j]) <==> ld.cell(i) == rd.cell(j));
        }
    }
    if rows_match(lfv, rfv, i, j, ne) {
        assert forall|k: int|
            0 <= k < lk.len() implies lcell_match(
            (#[trigger] lt.columns@[lk[k]]).data.cell(i),
            rt.columns@[rk[k]].data.cell(j),
            ne,
        ) by {
            assert(crate::matcher::cell_match(lfv[k][i], rfv[k][j], ne));
        }
    }
    if logical_rows_match(lt, rt, lk, rk, ne, i, j) {
        assert forall|k: int|
            0 <= k < lfv.len() implies crate::matcher::cell_match(
            (#[trigger] lfv[k])[i],
            rfv[k][j],
            ne,
        ) by {
            assert(lcell_match(lt.columns@[lk[k]].data.cell(i), rt.columns@[rk[k]].data.cell(j), ne));
        }
    }
}

/// Whether the smaller left side should become the hash build side: the
/// build/probe optimizer, a pure function of the two row counts; ties
/// keep the caller orientation.
pub fn det_swap(lrows: usize, rrows: usize) -> (r: bool)
    ensures
        r == (lrows < rrows),
{
    lrows < rrows
}

/// Membership of an index in a list of indices.
fn contains_idx(v: &Vec<usize>, x: usize) -> (r: bool)
    ensures
        r == idxs_of(v@).contains(x as int),
{
    let n = v.len();
    let mut k: usize = 0;
    while k < n
        invariant
            k <= n,
            n == v@.len(),
            forall|q: int| 0 <= q < k ==> idxs_of(v@)[q] != x as int,
        decreases n - k,
    {
        if v[k] == x {
            proof {
                assert(idxs_of(v@)[k as int] == x as int);
            }
            return true;
        }
        proof {
            assert(idxs_of(v@)[k as int] == v@[k as int] as int);
        }
        k = k + 1;
    }
    proof {
        if idxs_of(v@).contains(x as int) {
            let q = choose|q: int| 0 <= q < idxs_of(v@).len() && idxs_of(v@)[q] == x as int;
            assert(false);
        }
    }
    false
}

/// The ascending column indices below `w` that are not consumed keys.
fn kept_indices(w: usize, consumed: &Vec<usize>) -> (r: Vec<usize>)
    ensures
        idxs_of(r@) == kept_idx(w as int, idxs_of(consumed@)),
        forall|k: int| 0 <= k < r@.len() ==> (#[trigger] r@[k]) < w,
{
    let mut out: Vec<usize> = Vec::new();
    let mut c: usize = 0;
    while c < w
        invariant
            c <= w,
            idxs_of(out@) =~= kept_idx(c as int, idxs_of(consumed@)),
            forall|k: int| 0 <= k < out@.len() ==> (#[trigger] out@[k]) < w,
        decreases w - c,
    {
        if !contains_idx(consumed, c) {
            out.push(c);
        }
        proof {
            assert(idxs_of(out@) =~= kept_idx(c + 1, idxs_of(consumed@)));
        }
        c = c + 1;
    }
    out
}

/// The as-of matcher: pairs every left row, in order, with its best match
/// under the strategy, tolerance, and "by" frames; a left row with no
/// candidate gets no right row.
fn match_asof(
    lv: &Vec<Option<i64>>,
    rv: &Vec<Option<i64>>,
    byl: &Vec<Vec<Option<u64>>>,
    byr: &Vec<Vec<Option<u64>>>,
    strat: AsofStrategy,
    tol: Option<i64>,
) -> (r: Vec<IdxPair>)
    requires
        byl@.len() == byr@.len(),
        frame_wf(frame_view(byl), lv@.len() as int),
        frame_wf(frame_view(byr), rv@.len() as int),
    ensures
        pairs_view(r@) == asof_pairs(
            lv@,
            rv@,
            frames_p(frame_view(byl), frame_view(byr), false),
            strat,
            tol,
            lv@.len() as int,
            rv@.len() as int,
        ),
        pairs_in_bounds(pairs_view(r@), lv@.len() as int, true),
        pairs_in_bounds(pairs_view(r@), rv@.len() as int, false),
{
    let ghost byp = frames_p(frame_view(byl), frame_view(byr), false);
    let n = lv.len();
    let m = rv.len();
    let mut out: Vec<IdxPair> = Vec::new();
    let mut i: usize = 0;
    while i < n
        invariant
            i <= n,
            n == lv@.len(),
            m == rv@.len(),
            byl@.len() == byr@.len(),
            frame_wf(frame_view(byl), lv@.len() as int),
            frame_wf(frame_view(byr), rv@.len() as int),
            byp == frames_p(frame_view(byl), frame_view(byr), false),
            out@.len() == i,
            forall|q: int|
                0 <= q < i ==> #[trigger] pairs_view(out@)[q] == ((Some(q)), asof_fold(
                    lv@,
                    rv@,
                    byp,
                    strat,
                    tol,
                    q,
                    m as int,
                )),
            forall|q: int|
                0 <= q < i ==> ((#[trigger] out@[q]).1 matches Some(b) ==> b < m),
        decreases n - i,
    {
        let mut best: Option<usize> = None;
        let mut j: usize = 0;
        while j < m
            invariant
                i < n,
                j <= m,
                n == lv@.len(),
                m == rv@.len(),
                byl@.len() == byr@.len(),
                frame_wf(frame_view(byl), lv@.len() as int),
                frame_wf(frame_view(byr), rv@.len() as int),
                byp == frames_p(frame_view(byl), frame_view(byr), false),
                (match best {
                    Some(b) => Some(b as int),
                    None => None,
                }) == asof_fold(lv@, rv@, byp, strat, tol, i as int, j as int),
                best matches Some(b) ==> b < j && asof_cand(
                    lv@,
                    rv@,
                    byp,
                    strat,
                    tol,
                    i as int,
                    b as int,
                ),
            decreases m - j,
        {
            let cand: bool = match (lv[i], rv[j]) {
                (Some(li), Some(rj)) => {
                    let by_ok = rows_match_exec(byl, byr, i, j, false);
                    let dir_ok = match strat {
                        AsofStrategy::Backward => rj <= li,
                        AsofStrategy::Forward => rj >= li,
                        AsofStrategy::Nearest => true,
                    };
                    let tol_ok = match tol {
                        Some(t) => {
                            let d: i128 = li as i128 - rj as i128;
                            let ad: i128 = if d < 0 {
                                -d
                            } else {
                                d
                            };
                            ad <= t as i128
                        },
                        None => true,
                    };
                    by_ok && dir_ok && tol_ok
                },
                _ => false,
            };
            proof {
                assert(cand == asof_cand(lv@, rv@, byp, strat, tol, i as int, j as int));
            }
            if cand {
                match best {
                    None => {
                        best = Some(j);
                    },
                    Some(b) => {
                        let li = match lv[i] {
                            Some(x) => x,
                            None => vstd::pervasive::unreached(),
                        };
                        let rj = match rv[j] {
                            Some(x) => x,
                            None => vstd::pervasive::unreached(),
                        };
                        let vb = match rv[b] {
                            Some(x) => x,
                            None => vstd::pervasive::unreached(),
                        };
                        let better: bool = match strat {
                            AsofStrategy::Backward => rj > vb,
                            AsofStrategy::Forward => rj < vb,
                            AsofStrategy::Nearest => {
                                let d1: i128 = li as i128 - rj as i128;
                                let a1: i128 = if d1 < 0 {
                                    -d1
                                } else {
                                    d1
                                };
                                let d2: i128 = li as i128 - vb as i128;
                                let a2: i128 = if d2 < 0 {
                                    -d2
                                } else {
                                    d2
                                };
                                a1 < a2 || (a1 == a2 && rj < vb)
                            },
                        };
                        proof {
                            assert(better == asof_better(
                                lv@,
                                rv@,
                                strat,
                                i as int,
                                j as int,
                                b as int,
                            ));
                        }
                        if better {
                            best = Some(j);
                        }
                    },
                }
            }
            j = j + 1;
        }
        let ghost before = out@;
        out.push((Some(i), best));
        proof {
            assert(pairs_view(out@) =~= pairs_view(before).push(pair_view((Some(i), best))));
        }
        i = i + 1;
    }
    proof {
        assert(pairs_view(out@) =~= asof_pairs(
            lv@,
            rv@,
            byp,
            strat,
            tol,
            lv@.len() as int,
            rv@.len() as int,
        ));
    }
    out
}

/// Assembles the output table: gathers the left projection and the kept
/// right projection as a fork-join pair, overwrites key columns with their
/// coalesced data when asked, and appends the right columns under their
/// resolved names.
fn finish_table(
    lt: &Table,
    rt: &Table,
    lkeys: &Vec<usize>,
    rkeys: &Vec<usize>,
    keptr: &Vec<usize>,
    pairs: Vec<IdxPair>,
    rres: Vec<String>,
    do_coalesce: bool,
) -> (out: Table)
    requires
        lt.wf(),
        rt.wf(),
        lkeys@.len() == rkeys@.len(),
        forall|k: int| 0 <= k < lkeys@.len() ==> (#[trigger] lkeys@[k]) < lt.columns@.len(),
        forall|k: int| 0 <= k < rkeys@.len() ==> (#[trigger] rkeys@[k]) < rt.columns@.len(),
        forall|k: int| 0 <= k < keptr@.len() ==> (#[trigger] keptr@[k]) < rt.columns@.len(),
        do_coalesce ==> forall|k: int|
            0 <= k < lkeys@.len() ==> (#[trigger] lt.columns@[lkeys@[k] as int]).data.spec_dtype()
                == rt.columns@[rkeys@[k] as int].data.spec_dtype(),
        pairs_in_bounds(pairs_view(pairs@), lt.height as int, true),
        pairs_in_bounds(pairs_view(pairs@), rt.height as int, false),
        rres@.len() == keptr@.len(),
    ensures
        out.wf(),
        out.height == pairs@.len(),
        out.columns@.len() == lt.columns@.len() + keptr@.len(),
        forall|k: int|
            0 <= k < lt.columns@.len() ==> left_out_col_ok(
                #[trigger] out.columns@[k],
                *lt,
                *rt,
                idxs_of(lkeys@),
                idxs_of(rkeys@),
                pairs_view(pairs@),
                do_coalesce,
                k,
            ),
        forall|k: int|
            0 <= k < keptr@.len() ==> {
                let c = #[trigger] out.columns@[lt.columns@.len() + k];
                let src = rt.columns@[keptr@[k] as int];
                &&& c.name@ == rres@[k]@
                &&& c.wf()
                &&& c.data.spec_len() == pairs@.len()
                &&& c.data.spec_dtype() == src.data.spec_dtype()
                &&& c.data.cells() == gather_cells(
                    src.data.cells(),
                    side_idx(pairs_view(pairs@), false),
                )
            },
{
    let lw = lt.width();
    let mut all_left: Vec<usize> = Vec::new();
    let mut c: usize = 0;
    while c < lw
        invariant
            c <= lw,
            lw == lt.columns@.len(),
            all_left@.len() == c,
            forall|q: int| 0 <= q < c ==> (#[trigger] all_left@[q]) == q,
        decreases lw - c,
    {
        all_left.push(c);
        c = c + 1;
    }
    let (mut cols, rgather) = gather_both(lt, &all_left, rt, keptr, &pairs);
    let ghost psv = pairs_view(pairs@);
    proof {
        assert forall|k: int|
            0 <= k < lw implies left_out_col_ok(
            #[trigger] cols@[k],
            *lt,
            *rt,
            idxs_of(lkeys@).take(0),
            idxs_of(rkeys@),
            psv,
            do_coalesce,
            k,
        ) by {
            assert(all_left@[k] == k);
        }
    }
    if do_coalesce {
        let nk = lkeys.len();
        let mut q: usize = 0;
        while q < nk
            invariant
                q <= nk,
                nk == lkeys@.len(),
                lkeys@.len() == rkeys@.len(),
                lt.wf(),
                rt.wf(),
                lw == lt.columns@.len(),
                forall|k: int| 0 <= k < lkeys@.len() ==> (#[trigger] lkeys@[k]) < lt.columns@.len(),
                forall|k: int| 0 <= k < rkeys@.len() ==> (#[trigger] rkeys@[k]) < rt.columns@.len(),
                forall|k: int|
                    0 <= k < lkeys@.len() ==> (#[trigger] lt.columns@[lkeys@[k] as int]).data.spec_dtype()
                        == rt.columns@[rkeys@[k] as int].data.spec_dtype(),
                pairs_in_bounds(psv, lt.height as int, true),
                pairs_in_bounds(psv, rt.height as int, false),
                psv == pairs_view(pairs@),
                do_coalesce,
                cols@.len() == lw,
                forall|k: int|
                    0 <= k < lw ==> left_out_col_ok(
                        #[trigger] cols@[k],
                        *lt,
                        *rt,
                        idxs_of(lkeys@).take(q as int),
                        idxs_of(rkeys@),
                        psv,
                        do_coalesce,
                        k,
                    ),
            decreases nk - q,
        {
            let tgt = lkeys[q];
            let merged = gather_coalesced(
                &lt.columns[tgt].data,
                &rt.columns[rkeys[q]].data,
                &pairs,
            );
            let name = lt.columns[tgt].name.clone();
            let ghost prev = cols@;
            cols.set(tgt, Column { name, data: merged });
            proof {
                assert(idxs_of(lkeys@).take(q + 1).drop_last() =~= idxs_of(lkeys@).take(q as int));
                assert(idxs_of(lkeys@).take(q + 1).last() == lkeys@[q as int] as int);
                assert forall|k: int|
                    0 <= k < lw implies left_out_col_ok(
                    #[trigger] cols@[k],
                    *lt,
                    *rt,
                    idxs_of(lkeys@).take(q + 1),
                    idxs_of(rkeys@),
                    psv,
                    do_coalesce,
                    k,
                ) by {
                    if k == tgt {
                        assert(find_int(idxs_of(lkeys@).take(q + 1), k) == q);
                    } else {
                        assert(cols@[k] == prev[k]);
                        assert(find_int(idxs_of(lkeys@).take(q + 1), k) == find_int(
                            idxs_of(lkeys@).take(q as int),
                            k,
                        ));
                    }
                }
            }
            q = q + 1;
        }
        proof {
            assert(idxs_of(lkeys@).take(nk as int) =~= idxs_of(lkeys@));
        }
    }
    let nr = keptr.len();
    let mut rg = rgather;
    let mut rr = rres;
    let mut k: usize = 0;
    while k < nr
        invariant
            k <= nr,
            nr == keptr@.len(),
            lw == lt.columns@.len(),
            rg@ =~= rgather@.subrange(k as int, nr as int),
            rr@ =~= rres@.subrange(k as int, nr as int),
            gathered_ok(rgather@, *rt, keptr@, psv, false),
            rres@.len() == keptr@.len(),
            cols@.len() == lw + k,
            forall|q: int|
                0 <= q < lw ==> left_out_col_ok(
                    #[trigger] cols@[q],
                    *lt,
                    *rt,
                    idxs_of(lkeys@),
                    idxs_of(rkeys@),
                    psv,
                    do_coalesce,
                    q,
                ),
            forall|q: int|
                0 <= q < k ==> {
                    let cc = #[trigger] cols@[lw + q];
                    let src = rt.columns@[keptr@[q] as int];
                    &&& cc.name@ == rres@[q]@
                    &&& cc.wf()
                    &&& cc.data.spec_len() == psv.len()
                    &&& cc.data.spec_dtype() == src.data.spec_dtype()
                    &&& cc.data.cells() == gather_cells(src.data.cells(), side_idx(psv, false))
                },
        decreases nr - k,
    {
        let col = rg.remove(0);
        let name = rr.remove(0);
        proof {
            assert(col == rgather@[k as int]);
            assert(name == rres@[k as int]);
        }
        let Column { name: _, data } = col;
        cols.push(Column { name, data });
        proof {
            assert(rg@ =~= rgather@.subrange(k + 1, nr as int));
            assert(rr@ =~= rres@.subrange(k + 1, nr as int));
        }
        k = k + 1;
    }
    let out = Table { height: pairs.len(), columns: cols };
    proof {
        assert forall|q: int|
            0 <= q < out.columns@.len() implies (#[trigger] out.columns@[q]).wf()
            && out.columns@[q].data.spec_len() == out.height by {
            if q < lw {
                assert(left_out_col_ok(
                    out.columns@[q],
                    *lt,
                    *rt,
                    idxs_of(lkeys@),
                    idxs_of(rkeys@),
                    psv,
                    do_coalesce,
                    q,
                ));
            } else {
                let qq = q - lw;
                assert(cols@[lw + qq].wf() && cols@[lw + qq].data.spec_len() == psv.len());
            }
        }
    }
    out
}

/// Runs the pipeline after every fail-fast check has passed: resolves the
/// output names and refuses residual collisions, normalizes the keys,
/// orients and runs the matcher, slices the pair sequence, and assembles
/// the output.
#[verifier::rlimit(60)]
fn run_assembled(
    lt: &Table,
    rt: &Table,
    lkeys: Vec<usize>,
    rkeys: Vec<usize>,
    lbkeys: Vec<usize>,
    rbkeys: Vec<usize>,
    sp: JoinSpec,
) -> (r: Result<Table, JoinError>)
    requires
        lt.wf(),
        rt.wf(),
        lkeys@.len() == rkeys@.len(),
        lbkeys@.len() == rbkeys@.len(),
        forall|k: int| 0 <= k < lkeys@.len() ==> (#[trigger] lkeys@[k]) < lt.columns@.len(),
        forall|k: int| 0 <= k < rkeys@.len() ==> (#[trigger] rkeys@[k]) < rt.columns@.len(),
        forall|k: int| 0 <= k < lbkeys@.len() ==> (#[trigger] lbkeys@[k]) < lt.columns@.len(),
        forall|k: int| 0 <= k < rbkeys@.len() ==> (#[trigger] rbkeys@[k]) < rt.columns@.len(),
        !(sp.how is Cross) ==> forall|k: int|
            0 <= k < lkeys@.len() ==> (#[trigger] lt.columns@[lkeys@[k] as int]).data.spec_dtype()
                == rt.columns@[rkeys@[k] as int].data.spec_dtype(),
        forall|k: int|
            0 <= k < lbkeys@.len() ==> (#[trigger] lt.columns@[lbkeys@[k] as int]).data.spec_dtype()
                == rt.columns@[rbkeys@[k] as int].data.spec_dtype(),
        sp.how is Cross ==> lkeys@.len() == 0,
        sp.how matches JoinType::AsOf(o) ==> lkeys@.len() == 1 && lt.columns@[lkeys@[0] as int].data
            is Ints && rt.columns@[rkeys@[0] as int].data is Ints,
        !(sp.how matches JoinType::AsOf(o)) ==> lbkeys@.len() == 0,
    ensures
        join_assembled(
            *lt,
            *rt,
            idxs_of(lkeys@),
            idxs_of(rkeys@),
            idxs_of(lbkeys@),
            idxs_of(rbkeys@),
            sp,
            r,
        ),
{
    let ghost lk = idxs_of(lkeys@);
    let ghost rk = idxs_of(rkeys@);
    let ghost lbk = idxs_of(lbkeys@);
    let ghost rbk = idxs_of(rbkeys@);
    let sfx: String = match &sp.suffix {
        Some(s) => s.clone(),
        None => String::from_str("_right"),
    };
    proof {
        assert(sfx@ == suffix_view(sp.suffix));
    }
    // The key columns the right projection no longer carries.
    let mut consumed: Vec<usize> = Vec::new();
    let mut k: usize = 0;
    let nrk = rkeys.len();
    while k < nrk
        invariant
            k <= nrk,
            nrk == rkeys@.len(),
            consumed@ =~= rkeys@.subrange(0, k as int),
        decreases nrk - k,
    {
        consumed.push(rkeys[k]);
        proof {
            assert(consumed@ =~= rkeys@.subrange(0, k + 1));
        }
        k = k + 1;
    }
    let nbk = rbkeys.len();
    let mut k2: usize = 0;
    while k2 < nbk
        invariant
            k2 <= nbk,
            nbk == rbkeys@.len(),
            consumed@ =~= rkeys@ + rbkeys@.subrange(0, k2 as int),
        decreases nbk - k2,
    {
        consumed.push(rbkeys[k2]);
        proof {
            assert(consumed@ =~= rkeys@ + rbkeys@.subrange(0, k2 + 1));
        }
        k2 = k2 + 1;
    }
    proof {
        assert(consumed@ =~= rkeys@ + rbkeys@);
        assert(idxs_of(consumed@) =~= rk + rbk);
    }
    let none_consumed: Vec<usize> = Vec::new();
    let keptr: Vec<usize> = match &sp.how {
        JoinType::Semi => Vec::new(),
        JoinType::Anti => Vec::new(),
        JoinType::Cross => kept_indices(rt.width(), &none_consumed),
        JoinType::Outer { coalesce } => if *coalesce {
            kept_indices(rt.width(), &consumed)
        } else {
            kept_indices(rt.width(), &none_consumed)
        },
        _ => kept_indices(rt.width(), &consumed),
    };
    proof {
        assert(idxs_of(none_consumed@) =~= Seq::<int>::empty());
        assert(idxs_of(keptr@) == kept_right(sp.how, rt.columns@.len() as int, rk + rbk));
    }
    // Resolve the kept right names and refuse residual collisions.
    let nr = keptr.len();
    let mut rres: Vec<String> = Vec::new();
    let mut q: usize = 0;
    while q < nr
        invariant
            q <= nr,
            nr == keptr@.len(),
            forall|x: int| 0 <= x < keptr@.len() ==> (#[trigger] keptr@[x]) < rt.columns@.len(),
            sfx@ == suffix_view(sp.suffix),
            rres@.len() == q,
            forall|x: int|
                0 <= x < q ==> (#[trigger] rres@[x])@ == resolved(
                    lt.spec_names(),
                    rt.spec_names()[keptr@[x] as int],
                    sfx@,
                ),
        decreases nr - q,
    {
        let nm = &rt.columns[keptr[q]].name;
        if table_has_name(lt, nm) {
            let mut s = nm.clone();
            s.append(sfx.as_str());
            rres.push(s);
        } else {
            rres.push(nm.clone());
        }
        q = q + 1;
    }
    let lw = lt.width();
    let mut all_names: Vec<String> = Vec::new();
    let mut a: usize = 0;
    while a < lw
        invariant
            a <= lw,
            lw == lt.columns@.len(),
            all_names@.len() == a,
            forall|x: int| 0 <= x < a ==> (#[trigger] all_names@[x])@ == lt.spec_names()[x],
        decreases lw - a,
    {
        all_names.push(lt.columns[a].name.clone());
        a = a + 1;
    }
    let mut b: usize = 0;
    while b < nr
        invariant
            b <= nr,
            nr == rres@.len(),
            lw == lt.columns@.len(),
            all_names@.len() == lw + b,
            forall|x: int| 0 <= x < lw ==> (#[trigger] all_names@[x])@ == lt.spec_names()[x],
            forall|x: int| 0 <= x < b ==> (#[trigger] all_names@[lw + x])@ == rres@[x]@,
        decreases nr - b,
    {
        all_names.push(rres[b].clone());
        b = b + 1;
    }
    let ghost outnames = lt.spec_names() + Seq::new(
        idxs_of(keptr@).len(),
        |k: int|
            resolved(lt.spec_names(), rt.spec_names()[idxs_of(keptr@)[k]], suffix_view(sp.suffix)),
    );
    proof {
        assert forall|x: int| 0 <= x < all_names@.len() implies (#[trigger] all_names@[x])@
            == outnames[x] by {
            if x >= lw {
                assert(all_names@[lw + (x - lw)]@ == rres@[x - lw]@);
            }
        }
        assert(all_names@.len() == outnames.len());
    }
    if !crate::table::dict_distinct(&all_names) {
        proof {
            assert(has_dup_names(outnames));
        }
        return Err(JoinError::ComputeError);
    }
    proof {
        assert(!has_dup_names(outnames)) by {
            if has_dup_names(outnames) {
                let (x, y) = choose|x: int, y: int|
                    0 <= x < y < outnames.len() && outnames[x] == outnames[y];
                assert(all_names@[x]@ == all_names@[y]@);
                assert(false);
            }
        }
    }
    // Normalize the keys and run the matcher under the chosen orientation.
    let ghost p = equi_pred(*lt, *rt, lk, rk, sp.null_equality);
    let ghost n = lt.height as int;
    let ghost m = rt.height as int;
    let pairs0: Vec<IdxPair> = match &sp.how {
        JoinType::Cross => match_cross(lt.height(), rt.height()),
        JoinType::AsOf(opts) => {
            let (bylf, byrf) = build_frames(lt, rt, &lbkeys, &rbkeys);
            let lv: &Vec<Option<i64>> = match &lt.columns[lkeys[0]].data {
                ColumnData::Ints(v) => v,
                _ => vstd::pervasive::unreached(),
            };
            let rv: &Vec<Option<i64>> = match &rt.columns[rkeys[0]].data {
                ColumnData::Ints(v) => v,
                _ => vstd::pervasive::unreached(),
            };
            let out = match_asof(lv, rv, &bylf, &byrf, opts.strategy, opts.tolerance);
            proof {
                let byp_phys = frames_p(frame_view(&bylf), frame_view(&byrf), false);
                let byp_log = equi_pred(*lt, *rt, lbk, rbk, false);
                assert forall|i: int, j: int| 0 <= j < m implies #[trigger] byp_phys(i, j)
                    == byp_log(i, j) || !(0 <= i < n) by {
                    if 0 <= i < n {
                        lemma_frames_match_logical(
                            *lt,
                            *rt,
                            lbk,
                            rbk,
                            false,
                            frame_view(&bylf),
                            frame_view(&byrf),
                            i,
                            j,
                        );
                    }
                }
                assert forall|i: int|
                    0 <= i < n implies #[trigger] asof_fold(
                    lv@,
                    rv@,
                    byp_phys,
                    opts.strategy,
                    opts.tolerance,
                    i,
                    m,
                ) == asof_fold(lv@, rv@, byp_log, opts.strategy, opts.tolerance, i, m) by {
                    assert forall|j: int| 0 <= j < m implies #[trigger] byp_phys(i, j) == byp_log(
                        i,
                        j,
                    ) by {}
                    lemma_asof_fold_congruence(
                        lv@,
                        rv@,
                        byp_phys,
                        byp_log,
                        opts.strategy,
                        opts.tolerance,
                        i,
                        m,
                    );
                }
                assert(pairs_view(out@) =~= asof_pairs(
                    ints_of(lt.columns@[lk[0]].data),
                    ints_of(rt.columns@[rk[0]].data),
                    byp_log,
                    opts.strategy,
                    opts.tolerance,
                    n,
                    m,
                ));
            }
            out
        },
        _ => {
            let (lf, rf) = build_frames(lt, rt, &lkeys, &rkeys);
            let ghost pf = frames_p(frame_view(&lf), frame_view(&rf), sp.null_equality);
            proof {
                assert forall|i: int, j: int|
                    0 <= i < n && 0 <= j < m implies #[trigger] pf(i, j) == p(i, j) by {
                    lemma_frames_match_logical(
                        *lt,
                        *rt,
                        lk,
                        rk,
                        sp.null_equality,
                        frame_view(&lf),
                        frame_view(&rf),
                        i,
                        j,
                    );
                }
            }
            match &sp.how {
                JoinType::Inner => {
                    if det_swap(lt.height(), rt.height()) {
                        let ghost pfr = frames_p(
                            frame_view(&rf),
                            frame_view(&lf),
                            sp.null_equality,
                        );
                        let raw = match_inner(&rf, &lf, rt.height(), lt.height(), sp.null_equality);
                        let out = flip_pairs(raw);
                        proof {
                            assert forall|j: int, i: int|
                                0 <= j < m && 0 <= i < n implies #[trigger] pfr(j, i)
                                == transpose_p(p)(j, i) by {
                                assert(crate::matcher::rows_match(
                                    frame_view(&rf),
                                    frame_view(&lf),
                                    j,
                                    i,
                                    sp.null_equality,
                                ) == crate::matcher::rows_match(
                                    frame_view(&lf),
                                    frame_view(&rf),
                                    i,
                                    j,
                                    sp.null_equality,
                                ));
                                assert(pf(i, j) == p(i, j));
                            }
                            lemma_inner_congruence(pfr, transpose_p(p), m, n);
                            assert(pairs_view(out@) == flip_seq(
                                inner_pairs(transpose_p(p), m, n),
                            ));
                            assert forall|r2: int|
                                0 <= r2 < pairs_view(out@).len() implies (match (
                                if true {
                                    (#[trigger] pairs_view(out@)[r2]).0
                                } else {
                                    pairs_view(out@)[r2].1
                                }) {
                                Some(i) => 0 <= i < lt.height as int,
                                None => true,
                            }) by {
                                assert(pairs_view(raw@)[r2].1 == pairs_view(out@)[r2].0);
                            }
                        }
                        out
                    } else {
                        let out = match_inner(&lf, &rf, lt.height(), rt.height(), sp.null_equality);
                        proof {
                            lemma_inner_congruence(pf, p, n, m);
                        }
                        out
                    }
                },
                JoinType::Left => {
                    let out = match_left(&lf, &rf, lt.height(), rt.height(), sp.null_equality);
                    proof {
                        lemma_left_congruence(pf, p, n, m);
                    }
                    out
                },
                JoinType::Outer { .. } => {
                    let out = match_outer(&lf, &rf, lt.height(), rt.height(), sp.null_equality);
                    proof {
                        lemma_outer_congruence(pf, p, n, m);
                    }
                    out
                },
                JoinType::Semi => {
                    let out = match_semi_anti(
                        &lf,
                        &rf,
                        lt.height(),
                        rt.height(),
                        sp.null_equality,
                        false,
                    );
                    proof {
                        lemma_semi_anti_congruence(pf, p, n, m);
                    }
                    out
                },
                JoinType::Anti => {
                    let out = match_semi_anti(
                        &lf,
                        &rf,
                        lt.height(),
                        rt.height(),
                        sp.null_equality,
                        true,
                    );
                    proof {
                        lemma_semi_anti_congruence(pf, p, n, m);
                    }
                    out
                },
                _ => vstd::pervasive::unreached(),
            }
        },
    };
    let ghost ps0 = join_pairs_of(sp.how, *lt, *rt, lk, rk, lbk, rbk, sp.null_equality);
    proof {
        assert(pairs_view(pairs0@) == ps0);
        assert(pairs_in_bounds(pairs_view(pairs0@), lt.height as int, true));
        assert(pairs_in_bounds(pairs_view(pairs0@), rt.height as int, false));
    }
    let pairs: Vec<IdxPair> = match sp.slice {
        Some((o, l)) => {
            let out = slice_pairs(pairs0, o, l);
            proof {
                assert forall|r2: int|
                    0 <= r2 < pairs_view(out@).len() implies (match (#[trigger] pairs_view(
                    out@,
                )[r2]).0 {
                    Some(i) => 0 <= i < lt.height as int,
                    None => true,
                }) && (match pairs_view(out@)[r2].1 {
                    Some(i) => 0 <= i < rt.height as int,
                    None => true,
                }) by {
                    assert(pairs_view(out@)[r2] == slice_seq(ps0, o as int, l as int)[r2]);
                }
            }
            out
        },
        None => pairs0,
    };
    proof {
        assert(pairs_view(pairs@) == applied_slice(ps0, sp.slice));
    }
    let do_coalesce: bool = match &sp.how {
        JoinType::Outer { coalesce } => *coalesce,
        _ => false,
    };
    let out = finish_table(lt, rt, &lkeys, &rkeys, &keptr, pairs, rres, do_coalesce);
    Ok(out)
}

impl Table {
    /// Generic join entry point: joins `self` against `other` on the named
    /// key columns under the given specification.  The whole behavior —
    /// each error with the inputs that produce it, and the exact output
    /// shape — is [`join_contract`].
    pub fn join(
        &self,
        other: &Table,
        left_on: &Vec<String>,
        right_on: &Vec<String>,
        sp: JoinSpec,
    ) -> (r: Result<Table, JoinError>)
        requires
            self.wf(),
            other.wf(),
        ensures
            join_contract(*self, *other, left_on@, right_on@, sp, r),
    {
        let ghost lnames = self.spec_names();
        let ghost rnames = other.spec_names();
        let ghost lkg = resolved_keys(*self, left_on@);
        let ghost rkg = resolved_keys(*other, right_on@);
        match &sp.how {
            JoinType::Cross => {
                let r = run_assembled(
                    self,
                    other,
                    Vec::new(),
                    Vec::new(),
                    Vec::new(),
                    Vec::new(),
                    sp,
                );
                proof {
                    assert(idxs_of(Seq::<usize>::empty()) =~= Seq::<int>::empty());
                }
                return r;
            },
            _ => {},
        }
        if left_on.len() != right_on.len() || left_on.len() == 0 {
            proof {
                assert(!(sp.how is Cross));
            }
            return Err(JoinError::InvalidInput);
        }
        let lkeys = match resolve_indices(self, left_on) {
            Some(v) => v,
            None => {
                return Err(JoinError::InvalidInput);
            },
        };
        let rkeys = match resolve_indices(other, right_on) {
            Some(v) => v,
            None => {
                return Err(JoinError::InvalidInput);
            },
        };
        proof {
            assert(idxs_of(lkeys@) =~= lkg);
            assert(idxs_of(rkeys@) =~= rkg);
            assert forall|k: int| 0 <= k < lkg.len() implies (#[trigger] lkg[k]) >= 0 by {
                assert(lkeys@[k] as int == lkg[k]);
            }
            assert forall|k: int| 0 <= k < rkg.len() implies (#[trigger] rkg[k]) >= 0 by {
                assert(rkeys@[k] as int == rkg[k]);
            }
        }
        match sp.validation {
            ValidationMode::ManyToMany => {},
            ValidationMode::OneToOne => {
                if side_dup(self, &lkeys) {
                    return Err(JoinError::ValidationError { left_side: true });
                }
                if side_dup(other, &rkeys) {
                    return Err(JoinError::ValidationError { left_side: false });
                }
            },
            ValidationMode::OneToMany => {
                if side_dup(self, &lkeys) {
                    return Err(JoinError::ValidationError { left_side: true });
                }
            },
            ValidationMode::ManyToOne => {
                if side_dup(other, &rkeys) {
                    return Err(JoinError::ValidationError { left_side: false });
                }
            },
        }
        match first_mismatch_exec(self, other, &lkeys, &rkeys) {
            Some(k) => {
                return Err(
                    JoinError::TypeMismatch {
                        left: left_on[k].clone(),
                        left_dtype: self.columns[lkeys[k]].data.dtype(),
                        right: right_on[k].clone(),
                        right_dtype: other.columns[rkeys[k]].data.dtype(),
                    },
                );
            },
            None => {},
        }
        let mut lbkeys: Vec<usize> = Vec::new();
        let mut rbkeys: Vec<usize> = Vec::new();
        match &sp.how {
            JoinType::AsOf(opts) => {
                if left_on.len() != 1 {
                    return Err(JoinError::UnsupportedCombination);
                }
                match (&opts.left_by, &opts.right_by) {
                    (None, None) => {},
                    (Some(lb), Some(rb)) => {
                        if lb.len() != rb.len() {
                            return Err(JoinError::InvalidInput);
                        }
                        match resolve_indices(self, lb) {
                            Some(v) => {
                                lbkeys = v;
                            },
                            None => {
                                proof {
                                    let k = choose|k: int|
                                        0 <= k < lb@.len() && find_name(lnames, lb@[k]@) < 0;
                                    assert(asof_by_invalid(*self, *other, *opts));
                                }
                                return Err(JoinError::InvalidInput);
                            },
                        }
                        match resolve_indices(other, rb) {
                            Some(v) => {
                                rbkeys = v;
                            },
                            None => {
                                proof {
                                    let k = choose|k: int|
                                        0 <= k < rb@.len() && find_name(rnames, rb@[k]@) < 0;
                                    assert(asof_by_invalid(*self, *other, *opts));
                                }
                                return Err(JoinError::InvalidInput);
                            },
                        }
                    },
                    _ => {
                        return Err(JoinError::InvalidInput);
                    },
                }
                proof {
                    assert(!asof_by_invalid(*self, *other, *opts));
                    assert(idxs_of(lbkeys@) =~= by_indices(*self, opts.left_by));
                    assert(idxs_of(rbkeys@) =~= by_indices(*other, opts.right_by));
                }
                match first_mismatch_exec(self, other, &lbkeys, &rbkeys) {
                    Some(k) => {
                        return Err(
                            JoinError::TypeMismatch {
                                left: self.columns[lbkeys[k]].name.clone(),
                                left_dtype: self.columns[lbkeys[k]].data.dtype(),
                                right: other.columns[rbkeys[k]].name.clone(),
                                right_dtype: other.columns[rbkeys[k]].data.dtype(),
                            },
                        );
                    },
                    None => {},
                }
                let l_is_int = matches!(&self.columns[lkeys[0]].data, ColumnData::Ints(_));
                let r_is_int = matches!(&other.columns[rkeys[0]].data, ColumnData::Ints(_));
                if !(l_is_int && r_is_int) {
                    return Err(JoinError::ComputeError);
                }
            },
            _ => {},
        }
        proof {
            lemma_first_mismatch_none(*self, *other, idxs_of(lkeys@), idxs_of(rkeys@), 0);
            lemma_first_mismatch_none(*self, *other, idxs_of(lbkeys@), idxs_of(rbkeys@), 0);
            assert forall|k: int|
                0 <= k < lkeys@.len() implies (#[trigger] self.columns@[lkeys@[k] as int]).data.spec_dtype()
                == other.columns@[rkeys@[k] as int].data.spec_dtype() by {
                assert(idxs_of(lkeys@)[k] == lkeys@[k] as int);
                assert(idxs_of(rkeys@)[k] == rkeys@[k] as int);
            }
            assert forall|k: int|
                0 <= k < lbkeys@.len() implies (#[trigger] self.columns@[lbkeys@[k] as int]).data.spec_dtype()
                == other.columns@[rbkeys@[k] as int].data.spec_dtype() by {
                assert(idxs_of(lbkeys@)[k] == lbkeys@[k] as int);
                assert(idxs_of(rbkeys@)[k] == rbkeys@[k] as int);
            }
        }
        run_assembled(self, other, lkeys, rkeys, lbkeys, rbkeys, sp)
    }

    /// Inner join on the named key columns, with defaulted options.
    pub fn inner_join(
        &self,
        other: &Table,
        left_on: &Vec<String>,
        right_on: &Vec<String>,
    ) -> (r: Result<Table, JoinError>)
        requires
            self.wf(),
            other.wf(),
        ensures
            join_contract(
                *self,
                *other,
                left_on@,
                right_on@,
                (JoinSpec {
                    how: JoinType::Inner,
                    null_equality: false,
                    validation: ValidationMode::ManyToMany,
                    slice: None,
                    suffix: None,
                }),
                r,
            ),
    {
        self.join(other, left_on, right_on, JoinSpec::new(JoinType::Inner))
    }

    /// Left join on the named key columns, with defaulted options.
    pub fn left_join(
        &self,
        other: &Table,
        left_on: &Vec<String>,
        right_on: &Vec<String>,
    ) -> (r: Result<Table, JoinError>)
        requires
            self.wf(),
            other.wf(),
        ensures
            join_contract(
                *self,
                *other,
                left_on@,
                right_on@,
                (JoinSpec {
                    how: JoinType::Left,
                    null_equality: false,
                    validation: ValidationMode::ManyToMany,
                    slice: None,
                    suffix: None,
                }),
                r,
            ),
    {
        self.join(other, left_on, right_on, JoinSpec::new(JoinType::Left))
    }

    /// Full outer join on the named key columns, with defaulted options and
    /// no key coalescing.
    pub fn outer_join(
        &self,
        other: &Table,
        left_on: &Vec<String>,
        right_on: &Vec<String>,
    ) -> (r: Result<Table, JoinError>)
        requires
            self.wf(),
            other.wf(),
        ensures
            join_contract(
                *self,
                *other,
                left_on@,
                right_on@,
                (JoinSpec {
                    how: JoinType::Outer { coalesce: false },
                    null_equality: false,
                    validation: ValidationMode::ManyToMany,
                    slice: None,
                    suffix: None,
                }),
                r,
            ),
    {
        self.join(other, left_on, right_on, JoinSpec::new(JoinType::Outer { coalesce: false }))
    }
}

} // verus!
