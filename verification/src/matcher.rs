//! Index-pair matching over physical key frames.
//!
//! A physical key frame is a column-major sequence of key columns, each a
//! vector of optional words (`None` is a null key component).  Matchers
//! return sequences of `(Option<left_row>, Option<right_row>)` pairs; the
//! contracts pin the result down exactly against recursive specifications,
//! and the lemmas at the end state the laws the join semantics rest on.

use vstd::prelude::*;

verus! {

/// An index pair: the left and right source row of one output row, either
/// side absent when that side contributes nulls.
pub type IdxPair = (Option<usize>, Option<usize>);

/// A ghost-level index pair over unbounded integers.
pub type GPair = (Option<int>, Option<int>);

/// The columns of a frame as sequences.
pub open spec fn frame_view(f: &Vec<Vec<Option<u64>>>) -> Seq<Seq<Option<u64>>> {
    Seq::new(f@.len(), |k: int| f@[k]@)
}

/// Every column of `f` has exactly `rows` entries.
pub open spec fn frame_wf(f: Seq<Seq<Option<u64>>>, rows: int) -> bool {
    forall|k: int| 0 <= k < f.len() ==> (#[trigger] f[k]).len() == rows
}

/// Whether two key components match: present components match when equal,
/// and two nulls match only when `null_eq` is set.  A null never matches a
/// present component.
pub open spec fn cell_match(a: Option<u64>, b: Option<u64>, null_eq: bool) -> bool {
    match (a, b) {
        (Some(x), Some(y)) => x == y,
        (None, None) => null_eq,
        _ => false,
    }
}

/// Whether left row `i` and right row `j` match on every key column.
pub open spec fn rows_match(
    lf: Seq<Seq<Option<u64>>>,
    rf: Seq<Seq<Option<u64>>>,
    i: int,
    j: int,
    null_eq: bool,
) -> bool {
    forall|k: int| 0 <= k < lf.len() ==> cell_match(#[trigger] lf[k][i], rf[k][j], null_eq)
}

/// The row-match predicate of a pair of frames, as a function of the two
/// row indices.
pub open spec fn frames_p(
    lf: Seq<Seq<Option<u64>>>,
    rf: Seq<Seq<Option<u64>>>,
    null_eq: bool,
) -> spec_fn(int, int) -> bool {
    |i: int, j: int| rows_match(lf, rf, i, j, null_eq)
}

/// The matched pairs of left row `i` against the first `m` right rows, in
/// ascending right order.
pub open spec fn row_pairs(p: spec_fn(int, int) -> bool, i: int, m: int) -> Seq<GPair>
    decreases m,
{
    if m <= 0 {
        Seq::empty()
    } else if p(i, m - 1) {
        row_pairs(p, i, m - 1).push((Some(i), Some(m - 1)))
    } else {
        row_pairs(p, i, m - 1)
    }
}

/// Whether left row `i` matches any of the first `m` right rows.
pub open spec fn has_match(p: spec_fn(int, int) -> bool, i: int, m: int) -> bool {
    row_pairs(p, i, m).len() > 0
}

/// Inner join: all matched pairs, left-major, right ascending within a row.
pub open spec fn inner_pairs(p: spec_fn(int, int) -> bool, n: int, m: int) -> Seq<GPair>
    decreases n,
{
    if n <= 0 {
        Seq::empty()
    } else {
        inner_pairs(p, n - 1, m) + row_pairs(p, n - 1, m)
    }
}

/// One left row's block in a left join: its matched pairs, or a single
/// `(Some(i), None)` pair when it matches nothing.
pub open spec fn left_row_block(p: spec_fn(int, int) -> bool, i: int, m: int) -> Seq<GPair> {
    if has_match(p, i, m) {
        row_pairs(p, i, m)
    } else {
        seq![(Some(i), None)]
    }
}

/// Left join: every left row in order, matched rows expanded, unmatched rows
/// once with no right row.
pub open spec fn left_pairs(p: spec_fn(int, int) -> bool, n: int, m: int) -> Seq<GPair>
    decreases n,
{
    if n <= 0 {
        Seq::empty()
    } else {
        left_pairs(p, n - 1, m) + left_row_block(p, n - 1, m)
    }
}

/// Whether right row `j` is matched by any of the `n` left rows.
pub open spec fn right_has_match(p: spec_fn(int, int) -> bool, n: int, j: int) -> bool {
    exists|i: int| 0 <= i < n && #[trigger] p(i, j)
}

/// The right rows among the first `m` that no left row matches, in order,
/// each as a `(None, Some(j))` pair.
pub open spec fn right_unmatched(p: spec_fn(int, int) -> bool, n: int, m: int) -> Seq<GPair>
    decreases m,
{
    if m <= 0 {
        Seq::empty()
    } else if right_has_match(p, n, m - 1) {
        right_unmatched(p, n, m - 1)
    } else {
        right_unmatched(p, n, m - 1).push((None, Some(m - 1)))
    }
}

/// Full outer join: the left-join pairs followed by the unmatched right
/// rows.
pub open spec fn outer_pairs(p: spec_fn(int, int) -> bool, n: int, m: int) -> Seq<GPair> {
    left_pairs(p, n, m) + right_unmatched(p, n, m)
}

/// Semi join: each left row with at least one match, once, in order.
pub open spec fn semi_pairs(p: spec_fn(int, int) -> bool, n: int, m: int) -> Seq<GPair>
    decreases n,
{
    if n <= 0 {
        Seq::empty()
    } else if has_match(p, n - 1, m) {
        semi_pairs(p, n - 1, m).push((Some(n - 1), None))
    } else {
        semi_pairs(p, n - 1, m)
    }
}

/// Anti join: each left row with no match, once, in order.
pub open spec fn anti_pairs(p: spec_fn(int, int) -> bool, n: int, m: int) -> Seq<GPair>
    decreases n,
{
    if n <= 0 {
        Seq::empty()
    } else if has_match(p, n - 1, m) {
        anti_pairs(p, n - 1, m)
    } else {
        anti_pairs(p, n - 1, m).push((Some(n - 1), None))
    }
}

/// Cross join: the full cartesian product of row indices, left-major.
pub open spec fn cross_pairs(n: int, m: int) -> Seq<GPair>
    decreases n,
{
    if n <= 0 {
        Seq::empty()
    } else {
        cross_pairs(n - 1, m) + Seq::new(m as nat, |j: int| (Some(n - 1), Some(j)))
    }
}

/// The ghost value of one executable index pair.
pub open spec fn pair_view(q: IdxPair) -> GPair {
    (
        match q.0 {
            Some(i) => Some(i as int),
            None => None,
        },
        match q.1 {
            Some(j) => Some(j as int),
            None => None,
        },
    )
}

/// The ghost values of a sequence of executable index pairs.
pub open spec fn pairs_view(s: Seq<IdxPair>) -> Seq<GPair> {
    s.map_values(|q: IdxPair| pair_view(q))
}

/// A pair sequence swapped side for side.
pub open spec fn flip_seq(s: Seq<GPair>) -> Seq<GPair> {
    s.map_values(|q: GPair| (q.1, q.0))
}

/// The transposed match predicate.
pub open spec fn transpose_p(p: spec_fn(int, int) -> bool) -> spec_fn(int, int) -> bool {
    |j: int, i: int| p(i, j)
}

/// Every present index of the chosen side lies below the given bound.
pub open spec fn pairs_in_bounds(ps: Seq<GPair>, bound: int, left: bool) -> bool {
    forall|r: int|
        0 <= r < ps.len() ==> (match (if left {
            (#[trigger] ps[r]).0
        } else {
            ps[r].1
        }) {
            Some(i) => 0 <= i < bound,
            None => true,
        })
}

/// How many entries of `s` equal `x`.
pub open spec fn count_of(s: Seq<GPair>, x: GPair) -> nat
    decreases s.len(),
{
    if s.len() == 0 {
        0
    } else {
        count_of(s.drop_last(), x) + if s.last() == x {
            1nat
        } else {
            0nat
        }
    }
}

pub proof fn lemma_count_of_concat(a: Seq<GPair>, b: Seq<GPair>, x: GPair)
    ensures
        count_of(a + b, x) == count_of(a, x) + count_of(b, x),
    decreases b.len(),
{
    if b.len() == 0 {
        assert(a + b =~= a);
    } else {
        assert((a + b).drop_last() =~= a + b.drop_last());
        lemma_count_of_concat(a, b.drop_last(), x);
    }
}

pub proof fn lemma_count_of_push(s: Seq<GPair>, y: GPair, x: GPair)
    ensures
        count_of(s.push(y), x) == count_of(s, x) + if y == x {
            1nat
        } else {
            0nat
        },
{
    assert(s.push(y).drop_last() =~= s);
}

/// `has_match` agrees with the existence of a matching right row.
pub proof fn lemma_has_match_iff(p: spec_fn(int, int) -> bool, i: int, m: int)
    ensures
        has_match(p, i, m) <==> exists|j: int| 0 <= j < m && #[trigger] p(i, j),
    decreases m,
{
    if m > 0 {
        lemma_has_match_iff(p, i, m - 1);
    }
}

/// Each matching right row appears exactly once among a left row's matched
/// pairs, and nothing else appears at all.
pub proof fn lemma_row_pairs_count(p: spec_fn(int, int) -> bool, i: int, m: int)
    ensures
        forall|j: int|
            #[trigger] count_of(row_pairs(p, i, m), ((Some(i)), Some(j))) == (if 0 <= j < m && p(i, j) {
                1nat
            } else {
                0nat
            }),
        forall|x: GPair|
            x.0 != Some(i) || x.1 is None ==> #[trigger] count_of(row_pairs(p, i, m), x) == 0,
    decreases m,
{
    if m <= 0 {
        assert forall|j: int|
            #[trigger] count_of(row_pairs(p, i, m), ((Some(i)), Some(j))) == (if 0 <= j < m && p(
                i,
                j,
            ) {
                1nat
            } else {
                0nat
            }) by {
            assert(row_pairs(p, i, m) =~= Seq::<GPair>::empty());
        }
    } else {
        lemma_row_pairs_count(p, i, m - 1);
        if p(i, m - 1) {
            assert forall|j: int|
                #[trigger] count_of(row_pairs(p, i, m), ((Some(i)), Some(j))) == (if 0 <= j < m
                    && p(i, j) {
                    1nat
                } else {
                    0nat
                }) by {
                lemma_count_of_push(row_pairs(p, i, m - 1), ((Some(i)), Some(m - 1)), (
                    (Some(i)),
                    Some(j),
                ));
            }
            assert forall|x: GPair|
                x.0 != Some(i) || x.1 is None implies #[trigger] count_of(row_pairs(p, i, m), x)
                    == 0 by {
                lemma_count_of_push(row_pairs(p, i, m - 1), ((Some(i)), Some(m - 1)), x);
            }
        } else {
            assert(row_pairs(p, i, m) == row_pairs(p, i, m - 1));
            assert forall|j: int|
                #[trigger] count_of(row_pairs(p, i, m), ((Some(i)), Some(j))) == (if 0 <= j < m
                    && p(i, j) {
                    1nat
                } else {
                    0nat
                }) by {
                assert(count_of(row_pairs(p, i, m), ((Some(i)), Some(j))) == count_of(
                    row_pairs(p, i, m - 1),
                    ((Some(i)), Some(j)),
                ));
            }
        }
    }
}

/// Inner join law: the result holds exactly one pair for every matching
/// left/right row combination and nothing else; both sides of every pair
/// are present.
pub proof fn lemma_inner_characterization(p: spec_fn(int, int) -> bool, n: int, m: int)
    ensures
        forall|i: int, j: int|
            #[trigger] count_of(inner_pairs(p, n, m), ((Some(i)), Some(j))) == (if 0 <= i < n && 0 <= j < m
                && p(i, j) {
                1nat
            } else {
                0nat
            }),
        forall|x: GPair| x.0 is None || x.1 is None ==> #[trigger] count_of(inner_pairs(p, n, m), x) == 0,
    decreases n,
{
    if n <= 0 {
    } else {
        lemma_inner_characterization(p, n - 1, m);
        lemma_row_pairs_count(p, n - 1, m);
        assert forall|i: int, j: int|
            #[trigger] count_of(inner_pairs(p, n, m), ((Some(i)), Some(j))) == (if 0 <= i < n && 0 <= j < m
                && p(i, j) {
                1nat
            } else {
                0nat
            }) by {
            lemma_count_of_concat(inner_pairs(p, n - 1, m), row_pairs(p, n - 1, m), (
                (Some(i)),
                Some(j),
            ));
        }
        assert forall|x: GPair|
            x.0 is None || x.1 is None implies count_of(inner_pairs(p, n, m), x) == 0 by {
            lemma_count_of_concat(inner_pairs(p, n - 1, m), row_pairs(p, n - 1, m), x);
        }
    }
}

/// Left join law: matched pairs appear exactly as in the inner join; an
/// unmatched left row appears exactly once, with no right row; every pair
/// has a left row.
pub proof fn lemma_left_characterization(p: spec_fn(int, int) -> bool, n: int, m: int)
    ensures
        forall|i: int, j: int|
            #[trigger] count_of(left_pairs(p, n, m), ((Some(i)), Some(j))) == (if 0 <= i < n && 0 <= j < m
                && p(i, j) {
                1nat
            } else {
                0nat
            }),
        forall|i: int|
            #[trigger] count_of(left_pairs(p, n, m), ((Some(i)), None)) == (if 0 <= i < n && !has_match(
                p,
                i,
                m,
            ) {
                1nat
            } else {
                0nat
            }),
        forall|x: GPair| x.0 is None ==> #[trigger] count_of(left_pairs(p, n, m), x) == 0,
    decreases n,
{
    if n <= 0 {
    } else {
        lemma_left_characterization(p, n - 1, m);
        lemma_row_pairs_count(p, n - 1, m);
        if !has_match(p, n - 1, m) {
            assert(left_row_block(p, n - 1, m) =~= Seq::empty().push(
                ((Some(n - 1)), None::<int>),
            ));
        }
        assert forall|i: int, j: int|
            #[trigger] count_of(left_pairs(p, n, m), ((Some(i)), Some(j))) == (if 0 <= i < n && 0 <= j < m
                && p(i, j) {
                1nat
            } else {
                0nat
            }) by {
            lemma_count_of_concat(left_pairs(p, n - 1, m), left_row_block(p, n - 1, m), (
                (Some(i)),
                Some(j),
            ));
            if !has_match(p, n - 1, m) {
                lemma_count_of_push(Seq::empty(), ((Some(n - 1)), None::<int>), ((Some(i)), Some(j)));
                lemma_has_match_iff(p, n - 1, m);
            }
        }
        assert forall|i: int|
            #[trigger] count_of(left_pairs(p, n, m), ((Some(i)), None)) == (if 0 <= i < n && !has_match(
                p,
                i,
                m,
            ) {
                1nat
            } else {
                0nat
            }) by {
            lemma_count_of_concat(left_pairs(p, n - 1, m), left_row_block(p, n - 1, m), (
                (Some(i)),
                None::<int>,
            ));
            if !has_match(p, n - 1, m) {
                lemma_count_of_push(Seq::empty(), ((Some(n - 1)), None::<int>), (
                    (Some(i)),
                    None::<int>,
                ));
            }
        }
        assert forall|x: GPair| x.0 is None implies count_of(left_pairs(p, n, m), x) == 0 by {
            lemma_count_of_concat(left_pairs(p, n - 1, m), left_row_block(p, n - 1, m), x);
            if !has_match(p, n - 1, m) {
                lemma_count_of_push(Seq::empty(), ((Some(n - 1)), None::<int>), x);
            }
        }
    }
}

/// A pair with a positive count stands somewhere in the sequence.
pub proof fn lemma_count_pos_exists(s: Seq<GPair>, x: GPair)
    requires
        count_of(s, x) > 0,
    ensures
        exists|r: int| 0 <= r < s.len() && s[r] == x,
    decreases s.len(),
{
    if s.last() == x {
        assert(s[s.len() - 1] == x);
    } else {
        lemma_count_pos_exists(s.drop_last(), x);
        let r = choose|r: int| 0 <= r < s.drop_last().len() && s.drop_last()[r] == x;
        assert(s[r] == x);
    }
}

/// Whether some pair of the sequence carries left row `i`.
pub open spec fn row_appears(s: Seq<GPair>, i: int) -> bool {
    exists|r: int| 0 <= r < s.len() && (#[trigger] s[r]).0 == Some(i)
}

/// Left join law, coverage half: every left row appears in the left-join
/// pairs at least once.
pub proof fn lemma_left_covers_all_rows(p: spec_fn(int, int) -> bool, n: int, m: int)
    ensures
        forall|i: int| 0 <= i < n ==> #[trigger] row_appears(left_pairs(p, n, m), i),
{
    lemma_left_characterization(p, n, m);
    assert forall|i: int| 0 <= i < n implies #[trigger] row_appears(left_pairs(p, n, m), i) by {
        lemma_has_match_iff(p, i, m);
        if has_match(p, i, m) {
            let j = choose|j: int| 0 <= j < m && #[trigger] p(i, j);
            assert(count_of(left_pairs(p, n, m), ((Some(i)), Some(j))) == 1);
            lemma_count_pos_exists(left_pairs(p, n, m), ((Some(i)), Some(j)));
            let r = choose|r: int|
                0 <= r < left_pairs(p, n, m).len() && left_pairs(p, n, m)[r] == (
                (Some(i)),
                Some(j),
                );
            assert(left_pairs(p, n, m)[r].0 == Some(i));
        } else {
            assert(count_of(left_pairs(p, n, m), ((Some(i)), None)) == 1);
            lemma_count_pos_exists(left_pairs(p, n, m), ((Some(i)), None));
            let r = choose|r: int|
                0 <= r < left_pairs(p, n, m).len() && left_pairs(p, n, m)[r] == (
                (Some(i)),
                None::<int>,
                );
            assert(left_pairs(p, n, m)[r].0 == Some(i));
        }
    }
}

/// Semi/anti join law: a left row stands in the semi result exactly when it
/// has a match and in the anti result exactly when it has none, each at
/// most once; together they partition the left rows.
pub proof fn lemma_semi_anti_partition(p: spec_fn(int, int) -> bool, n: int, m: int)
    ensures
        forall|i: int|
            #[trigger] count_of(semi_pairs(p, n, m), ((Some(i)), None)) == (if 0 <= i < n && has_match(
                p,
                i,
                m,
            ) {
                1nat
            } else {
                0nat
            }),
        forall|i: int|
            #[trigger] count_of(anti_pairs(p, n, m), ((Some(i)), None)) == (if 0 <= i < n && !has_match(
                p,
                i,
                m,
            ) {
                1nat
            } else {
                0nat
            }),
        forall|i: int|
            0 <= i < n ==> count_of(semi_pairs(p, n, m), ((Some(i)), None)) + count_of(
                anti_pairs(p, n, m),
                ((Some(i)), None),
            ) == 1,
        forall|x: GPair|
            x.1 is Some ==> count_of(semi_pairs(p, n, m), x) == 0 && count_of(
                anti_pairs(p, n, m),
                x,
            ) == 0,
    decreases n,
{
    if n <= 0 {
    } else {
        lemma_semi_anti_partition(p, n - 1, m);
        assert forall|x: GPair|
            count_of(semi_pairs(p, n, m), x) == count_of(semi_pairs(p, n - 1, m), x) + (if x == (
                (Some(n - 1)),
                None::<int>,
            ) && has_match(p, n - 1, m) {
                1nat
            } else {
                0nat
            }) by {
            if has_match(p, n - 1, m) {
                lemma_count_of_push(semi_pairs(p, n - 1, m), ((Some(n - 1)), None::<int>), x);
            }
        }
        assert forall|x: GPair|
            count_of(anti_pairs(p, n, m), x) == count_of(anti_pairs(p, n - 1, m), x) + (if x == (
                (Some(n - 1)),
                None::<int>,
            ) && !has_match(p, n - 1, m) {
                1nat
            } else {
                0nat
            }) by {
            if !has_match(p, n - 1, m) {
                lemma_count_of_push(anti_pairs(p, n - 1, m), ((Some(n - 1)), None::<int>), x);
            }
        }
    }
}

/// Semi joins select exactly the left rows that the inner join pairs up:
/// a left row stands in the semi result exactly when some right row stands
/// beside it in the inner result.
pub proof fn lemma_semi_inner(p: spec_fn(int, int) -> bool, n: int, m: int)
    ensures
        forall|i: int|
            0 <= i < n ==> ((count_of(semi_pairs(p, n, m), ((Some(i)), None)) == 1nat)
                <==> exists|j: int|
                0 <= j < m && #[trigger] count_of(inner_pairs(p, n, m), ((Some(i)), Some(j)))
                    == 1nat),
{
    lemma_semi_anti_partition(p, n, m);
    lemma_inner_characterization(p, n, m);
    assert forall|i: int| 0 <= i < n implies ((count_of(semi_pairs(p, n, m), ((Some(i)), None))
        == 1nat) <==> exists|j: int|
        0 <= j < m && #[trigger] count_of(inner_pairs(p, n, m), ((Some(i)), Some(j)))
            == 1nat) by {
        lemma_has_match_iff(p, i, m);
        if has_match(p, i, m) {
            let j = choose|j: int| 0 <= j < m && #[trigger] p(i, j);
            assert(count_of(inner_pairs(p, n, m), ((Some(i)), Some(j))) == 1nat);
        }
    }
}

/// Null-key law: without null equality, a row with a null key component
/// matches nothing at all; with it, two all-null key rows match.
pub proof fn lemma_null_matching(
    lf: Seq<Seq<Option<u64>>>,
    rf: Seq<Seq<Option<u64>>>,
    i: int,
    j: int,
)
    requires
        lf.len() == rf.len(),
    ensures
        (exists|k: int| 0 <= k < lf.len() && (#[trigger] lf[k][i]) is None) ==> !rows_match(
            lf,
            rf,
            i,
            j,
            false,
        ),
        (forall|k: int| 0 <= k < lf.len() ==> (#[trigger] lf[k][i]) is None) && (forall|k: int|
            0 <= k < rf.len() ==> (#[trigger] rf[k][j]) is None) ==> rows_match(
            lf,
            rf,
            i,
            j,
            true,
        ),
{
    if exists|k: int| 0 <= k < lf.len() && (#[trigger] lf[k][i]) is None {
        let k = choose|k: int| 0 <= k < lf.len() && (#[trigger] lf[k][i]) is None;
        assert(!cell_match(lf[k][i], rf[k][j], false));
    }
}

/// Counting through a flip swaps the pair looked for.
pub proof fn lemma_count_of_flip(s: Seq<GPair>, x: GPair)
    ensures
        count_of(flip_seq(s), x) == count_of(s, (x.1, x.0)),
    decreases s.len(),
{
    if s.len() > 0 {
        assert(flip_seq(s).drop_last() =~= flip_seq(s.drop_last()));
        lemma_count_of_flip(s.drop_last(), x);
    }
}

/// Build/probe swap transparency: matching with the sides swapped and
/// flipping the resulting pairs yields the same multiset of matched pairs
/// as matching in caller orientation.
pub proof fn lemma_flip_inner_characterization(p: spec_fn(int, int) -> bool, n: int, m: int)
    ensures
        forall|i: int, j: int|
            count_of(flip_seq(inner_pairs(transpose_p(p), m, n)), ((Some(i)), Some(j))) == (if 0
                <= i < n && 0 <= j < m && p(i, j) {
                1nat
            } else {
                0nat
            }),
        forall|x: GPair|
            x.0 is None || x.1 is None ==> count_of(
                flip_seq(inner_pairs(transpose_p(p), m, n)),
                x,
            ) == 0,
{
    lemma_inner_characterization(transpose_p(p), m, n);
    assert forall|i: int, j: int|
        count_of(flip_seq(inner_pairs(transpose_p(p), m, n)), ((Some(i)), Some(j))) == (if 0 <= i
            < n && 0 <= j < m && p(i, j) {
            1nat
        } else {
            0nat
        }) by {
        lemma_count_of_flip(inner_pairs(transpose_p(p), m, n), ((Some(i)), Some(j)));
        assert(transpose_p(p)(j, i) == p(i, j));
    }
    assert forall|x: GPair|
        x.0 is None || x.1 is None implies count_of(
        flip_seq(inner_pairs(transpose_p(p), m, n)),
        x,
    ) == 0 by {
        lemma_count_of_flip(inner_pairs(transpose_p(p), m, n), x);
    }
}

/// The pair builders depend on the match predicate only within the row
/// ranges: two predicates that agree there build the same sequences.
pub proof fn lemma_row_pairs_congruence(
    p1: spec_fn(int, int) -> bool,
    p2: spec_fn(int, int) -> bool,
    i: int,
    m: int,
)
    requires
        forall|j: int| 0 <= j < m ==> #[trigger] p1(i, j) == p2(i, j),
    ensures
        row_pairs(p1, i, m) == row_pairs(p2, i, m),
    decreases m,
{
    if m > 0 {
        lemma_row_pairs_congruence(p1, p2, i, m - 1);
    }
}

pub proof fn lemma_inner_congruence(
    p1: spec_fn(int, int) -> bool,
    p2: spec_fn(int, int) -> bool,
    n: int,
    m: int,
)
    requires
        forall|i: int, j: int| 0 <= i < n && 0 <= j < m ==> #[trigger] p1(i, j) == p2(i, j),
    ensures
        inner_pairs(p1, n, m) == inner_pairs(p2, n, m),
    decreases n,
{
    if n > 0 {
        lemma_inner_congruence(p1, p2, n - 1, m);
        lemma_row_pairs_congruence(p1, p2, n - 1, m);
    }
}

pub proof fn lemma_left_congruence(
    p1: spec_fn(int, int) -> bool,
    p2: spec_fn(int, int) -> bool,
    n: int,
    m: int,
)
    requires
        forall|i: int, j: int| 0 <= i < n && 0 <= j < m ==> #[trigger] p1(i, j) == p2(i, j),
    ensures
        left_pairs(p1, n, m) == left_pairs(p2, n, m),
    decreases n,
{
    if n > 0 {
        lemma_left_congruence(p1, p2, n - 1, m);
        lemma_row_pairs_congruence(p1, p2, n - 1, m);
    }
}

pub proof fn lemma_right_unmatched_congruence(
    p1: spec_fn(int, int) -> bool,
    p2: spec_fn(int, int) -> bool,
    n: int,
    m: int,
)
    requires
        forall|i: int, j: int| 0 <= i < n && 0 <= j < m ==> #[trigger] p1(i, j) == p2(i, j),
    ensures
        right_unmatched(p1, n, m) == right_unmatched(p2, n, m),
    decreases m,
{
    if m > 0 {
        lemma_right_unmatched_congruence(p1, p2, n, m - 1);
        assert(right_has_match(p1, n, m - 1) == right_has_match(p2, n, m - 1)) by {
            if right_has_match(p1, n, m - 1) {
                let i = choose|i: int| 0 <= i < n && #[trigger] p1(i, m - 1);
                assert(p2(i, m - 1));
            }
            if right_has_match(p2, n, m - 1) {
                let i = choose|i: int| 0 <= i < n && #[trigger] p2(i, m - 1);
                assert(p1(i, m - 1));
            }
        }
    }
}

pub proof fn lemma_outer_congruence(
    p1: spec_fn(int, int) -> bool,
    p2: spec_fn(int, int) -> bool,
    n: int,
    m: int,
)
    requires
        forall|i: int, j: int| 0 <= i < n && 0 <= j < m ==> #[trigger] p1(i, j) == p2(i, j),
    ensures
        outer_pairs(p1, n, m) == outer_pairs(p2, n, m),
{
    lemma_left_congruence(p1, p2, n, m);
    lemma_right_unmatched_congruence(p1, p2, n, m);
}

pub proof fn lemma_semi_anti_congruence(
    p1: spec_fn(int, int) -> bool,
    p2: spec_fn(int, int) -> bool,
    n: int,
    m: int,
)
    requires
        forall|i: int, j: int| 0 <= i < n && 0 <= j < m ==> #[trigger] p1(i, j) == p2(i, j),
    ensures
        semi_pairs(p1, n, m) == semi_pairs(p2, n, m),
        anti_pairs(p1, n, m) == anti_pairs(p2, n, m),
    decreases n,
{
    if n > 0 {
        lemma_semi_anti_congruence(p1, p2, n - 1, m);
        lemma_row_pairs_congruence(p1, p2, n - 1, m);
    }
}

/// Whether one key component of two rows matches.
fn cell_match_exec(a: &Option<u64>, b: &Option<u64>, null_eq: bool) -> (r: bool)
    ensures
        r == cell_match(*a, *b, null_eq),
{
    match (a, b) {
        (Some(x), Some(y)) => *x == *y,
        (None, None) => null_eq,
        _ => false,
    }
}

/// Whether left row `i` and right row `j` match on every key column.
pub(crate) fn rows_match_exec(
    lf: &Vec<Vec<Option<u64>>>,
    rf: &Vec<Vec<Option<u64>>>,
    i: usize,
    j: usize,
    null_eq: bool,
) -> (r: bool)
    requires
        lf@.len() == rf@.len(),
        forall|k: int| 0 <= k < lf@.len() ==> i < (#[trigger] frame_view(lf)[k]).len(),
        forall|k: int| 0 <= k < rf@.len() ==> j < (#[trigger] frame_view(rf)[k]).len(),
    ensures
        r == rows_match(frame_view(lf), frame_view(rf), i as int, j as int, null_eq),
{
    let w = lf.len();
    let mut k: usize = 0;
    let mut ok: bool = true;
    while k < w
        invariant
            k <= w,
            w == lf@.len(),
            lf@.len() == rf@.len(),
            forall|q: int| 0 <= q < lf@.len() ==> i < (#[trigger] frame_view(lf)[q]).len(),
            forall|q: int| 0 <= q < rf@.len() ==> j < (#[trigger] frame_view(rf)[q]).len(),
            ok == forall|q: int|
                0 <= q < k ==> cell_match(
                    #[trigger] frame_view(lf)[q][i as int],
                    frame_view(rf)[q][j as int],
                    null_eq,
                ),
        decreases w - k,
    {
        proof {
            assert(frame_view(lf)[k as int] == lf@[k as int]@);
            assert(frame_view(rf)[k as int] == rf@[k as int]@);
        }
        let c = cell_match_exec(&lf[k][i], &rf[k][j], null_eq);
        ok = ok && c;
        k = k + 1;
    }
    ok
}

/// Inner join matcher: emits every matching pair exactly once, left-major,
/// right ascending within one left row.
pub(crate) fn match_inner(
    lf: &Vec<Vec<Option<u64>>>,
    rf: &Vec<Vec<Option<u64>>>,
    lrows: usize,
    rrows: usize,
    null_eq: bool,
) -> (r: Vec<IdxPair>)
    requires
        lf@.len() == rf@.len(),
        frame_wf(frame_view(lf), lrows as int),
        frame_wf(frame_view(rf), rrows as int),
    ensures
        pairs_view(r@) == inner_pairs(
            frames_p(frame_view(lf), frame_view(rf), null_eq),
            lrows as int,
            rrows as int,
        ),
        pairs_in_bounds(pairs_view(r@), lrows as int, true),
        pairs_in_bounds(pairs_view(r@), rrows as int, false),
{
    let ghost p = frames_p(frame_view(lf), frame_view(rf), null_eq);
    let mut out: Vec<IdxPair> = Vec::new();
    let mut i: usize = 0;
    while i < lrows
        invariant
            i <= lrows,
            lf@.len() == rf@.len(),
            frame_wf(frame_view(lf), lrows as int),
            frame_wf(frame_view(rf), rrows as int),
            p == frames_p(frame_view(lf), frame_view(rf), null_eq),
            pairs_in_bounds(pairs_view(out@), lrows as int, true),
            pairs_in_bounds(pairs_view(out@), rrows as int, false),
            pairs_view(out@) =~= inner_pairs(p, i as int, rrows as int),
        decreases lrows - i,
    {
        let mut j: usize = 0;
        while j < rrows
            invariant
                i < lrows,
                j <= rrows,
                lf@.len() == rf@.len(),
                frame_wf(frame_view(lf), lrows as int),
                frame_wf(frame_view(rf), rrows as int),
                p == frames_p(frame_view(lf), frame_view(rf), null_eq),
                pairs_in_bounds(pairs_view(out@), lrows as int, true),
                pairs_in_bounds(pairs_view(out@), rrows as int, false),
                pairs_view(out@) =~= inner_pairs(p, i as int, rrows as int) + row_pairs(
                    p,
                    i as int,
                    j as int,
                ),
            decreases rrows - j,
        {
            if rows_match_exec(lf, rf, i, j, null_eq) {
                let ghost before = out@;
                out.push((Some(i), Some(j)));
                proof {
                    assert(p(i as int, j as int));
                    assert(out@ == before.push((Some(i), Some(j))));
                    assert(pairs_view(out@) =~= pairs_view(before).push(
                        pair_view((Some(i), Some(j))),
                    ));
                    assert(pair_view((Some(i), Some(j))) == ((Some(i as int)), Some(j as int)));
                    assert(row_pairs(p, i as int, j + 1) == row_pairs(p, i as int, j as int).push(
                        ((Some(i as int)), Some(j as int)),
                    ));
                    assert(pairs_view(out@) =~= inner_pairs(p, i as int, rrows as int)
                        + row_pairs(p, i as int, j + 1));
                }
            } else {
                proof {
                    assert(!p(i as int, j as int));
                }
            }
            j = j + 1;
        }
        i = i + 1;
        proof {
            assert(pairs_view(out@) =~= inner_pairs(p, i as int, rrows as int));
        }
    }
    out
}

/// Left join matcher: every left row in order; matched rows expanded with
/// their right matches ascending, unmatched rows once with no right row.
pub(crate) fn match_left(
    lf: &Vec<Vec<Option<u64>>>,
    rf: &Vec<Vec<Option<u64>>>,
    lrows: usize,
    rrows: usize,
    null_eq: bool,
) -> (r: Vec<IdxPair>)
    requires
        lf@.len() == rf@.len(),
        frame_wf(frame_view(lf), lrows as int),
        frame_wf(frame_view(rf), rrows as int),
    ensures
        pairs_view(r@) == left_pairs(
            frames_p(frame_view(lf), frame_view(rf), null_eq),
            lrows as int,
            rrows as int,
        ),
        pairs_in_bounds(pairs_view(r@), lrows as int, true),
        pairs_in_bounds(pairs_view(r@), rrows as int, false),
{
    let ghost p = frames_p(frame_view(lf), frame_view(rf), null_eq);
    let mut out: Vec<IdxPair> = Vec::new();
    let mut i: usize = 0;
    while i < lrows
        invariant
            i <= lrows,
            lf@.len() == rf@.len(),
            frame_wf(frame_view(lf), lrows as int),
            frame_wf(frame_view(rf), rrows as int),
            p == frames_p(frame_view(lf), frame_view(rf), null_eq),
            pairs_in_bounds(pairs_view(out@), lrows as int, true),
            pairs_in_bounds(pairs_view(out@), rrows as int, false),
            pairs_view(out@) =~= left_pairs(p, i as int, rrows as int),
        decreases lrows - i,
    {
        let mut j: usize = 0;
        let mut found: bool = false;
        let ghost base = pairs_view(out@);
        while j < rrows
            invariant
                i < lrows,
                j <= rrows,
                lf@.len() == rf@.len(),
                frame_wf(frame_view(lf), lrows as int),
                frame_wf(frame_view(rf), rrows as int),
                p == frames_p(frame_view(lf), frame_view(rf), null_eq),
                base == left_pairs(p, i as int, rrows as int),
                found == has_match(p, i as int, j as int),
                pairs_in_bounds(pairs_view(out@), lrows as int, true),
                pairs_in_bounds(pairs_view(out@), rrows as int, false),
                pairs_view(out@) =~= base + row_pairs(p, i as int, j as int),
            decreases rrows - j,
        {
            if rows_match_exec(lf, rf, i, j, null_eq) {
                let ghost before = out@;
                out.push((Some(i), Some(j)));
                found = true;
                proof {
                    assert(p(i as int, j as int));
                    assert(out@ == before.push((Some(i), Some(j))));
                    assert(pairs_view(out@) =~= pairs_view(before).push(
                        pair_view((Some(i), Some(j))),
                    ));
                    assert(pair_view((Some(i), Some(j))) == ((Some(i as int)), Some(j as int)));
                    assert(row_pairs(p, i as int, j + 1) == row_pairs(p, i as int, j as int).push(
                        ((Some(i as int)), Some(j as int)),
                    ));
                    assert(pairs_view(out@) =~= base + row_pairs(p, i as int, j + 1));
                }
            } else {
                proof {
                    assert(!p(i as int, j as int));
                    assert(row_pairs(p, i as int, j + 1) == row_pairs(p, i as int, j as int));
                }
            }
            j = j + 1;
        }
        if !found {
            let ghost before = out@;
            out.push((Some(i), None));
            proof {
                assert(out@ == before.push((Some(i), None)));
                assert(pairs_view(out@) =~= pairs_view(before).push(pair_view((Some(i), None))));
                assert(pair_view((Some(i), None)) == ((Some(i as int)), None::<int>));
                assert(pairs_view(out@) =~= base + seq![((Some(i as int)), None::<int>)]);
            }
        }
        i = i + 1;
        proof {
            assert(pairs_view(out@) =~= left_pairs(p, i as int, rrows as int));
        }
    }
    out
}

/// Full outer join matcher: the left-join pairs, then every right row that
/// no left row matched, in order, with no left row.
pub(crate) fn match_outer(
    lf: &Vec<Vec<Option<u64>>>,
    rf: &Vec<Vec<Option<u64>>>,
    lrows: usize,
    rrows: usize,
    null_eq: bool,
) -> (r: Vec<IdxPair>)
    requires
        lf@.len() == rf@.len(),
        frame_wf(frame_view(lf), lrows as int),
        frame_wf(frame_view(rf), rrows as int),
    ensures
        pairs_view(r@) == outer_pairs(
            frames_p(frame_view(lf), frame_view(rf), null_eq),
            lrows as int,
            rrows as int,
        ),
        pairs_in_bounds(pairs_view(r@), lrows as int, true),
        pairs_in_bounds(pairs_view(r@), rrows as int, false),
{
    let ghost p = frames_p(frame_view(lf), frame_view(rf), null_eq);
    let mut out = match_left(lf, rf, lrows, rrows, null_eq);
    let mut j: usize = 0;
    while j < rrows
        invariant
            j <= rrows,
            lf@.len() == rf@.len(),
            frame_wf(frame_view(lf), lrows as int),
            frame_wf(frame_view(rf), rrows as int),
            p == frames_p(frame_view(lf), frame_view(rf), null_eq),
            pairs_in_bounds(pairs_view(out@), lrows as int, true),
            pairs_in_bounds(pairs_view(out@), rrows as int, false),
            pairs_view(out@) =~= left_pairs(p, lrows as int, rrows as int) + right_unmatched(
                p,
                lrows as int,
                j as int,
            ),
        decreases rrows - j,
    {
        let mut i: usize = 0;
        let mut hit: bool = false;
        while i < lrows
            invariant
                i <= lrows,
                j < rrows,
                lf@.len() == rf@.len(),
                frame_wf(frame_view(lf), lrows as int),
                frame_wf(frame_view(rf), rrows as int),
                p == frames_p(frame_view(lf), frame_view(rf), null_eq),
                hit == exists|q: int| 0 <= q < i && #[trigger] p(q, j as int),
            decreases lrows - i,
        {
            if rows_match_exec(lf, rf, i, j, null_eq) {
                hit = true;
                proof {
                    assert(p(i as int, j as int));
                }
            }
            i = i + 1;
        }
        proof {
            assert(hit == right_has_match(p, lrows as int, j as int));
        }
        if !hit {
            let ghost before = out@;
            out.push((None, Some(j)));
            proof {
                assert(out@ == before.push((None, Some(j))));
                assert(pairs_view(out@) =~= pairs_view(before).push(pair_view((None, Some(j)))));
                assert(pair_view((None, Some(j))) == (None::<int>, Some(j as int)));
                assert(right_unmatched(p, lrows as int, j + 1) == right_unmatched(
                    p,
                    lrows as int,
                    j as int,
                ).push((None::<int>, Some(j as int))));
            }
        } else {
            proof {
                assert(right_unmatched(p, lrows as int, j + 1) == right_unmatched(
                    p,
                    lrows as int,
                    j as int,
                ));
            }
        }
        proof {
            assert(pairs_view(out@) =~= left_pairs(p, lrows as int, rrows as int)
                + right_unmatched(p, lrows as int, j + 1));
        }
        j = j + 1;
    }
    out
}

/// Semi or anti join matcher: each qualifying left row once, in order; a
/// left row qualifies for semi when it has a match and for anti when it has
/// none.
pub(crate) fn match_semi_anti(
    lf: &Vec<Vec<Option<u64>>>,
    rf: &Vec<Vec<Option<u64>>>,
    lrows: usize,
    rrows: usize,
    null_eq: bool,
    anti: bool,
) -> (r: Vec<IdxPair>)
    requires
        lf@.len() == rf@.len(),
        frame_wf(frame_view(lf), lrows as int),
        frame_wf(frame_view(rf), rrows as int),
    ensures
        anti ==> pairs_view(r@) == anti_pairs(
            frames_p(frame_view(lf), frame_view(rf), null_eq),
            lrows as int,
            rrows as int,
        ),
        !anti ==> pairs_view(r@) == semi_pairs(
            frames_p(frame_view(lf), frame_view(rf), null_eq),
            lrows as int,
            rrows as int,
        ),
        pairs_in_bounds(pairs_view(r@), lrows as int, true),
        pairs_in_bounds(pairs_view(r@), rrows as int, false),
{
    let ghost p = frames_p(frame_view(lf), frame_view(rf), null_eq);
    let mut out: Vec<IdxPair> = Vec::new();
    let mut i: usize = 0;
    while i < lrows
        invariant
            i <= lrows,
            lf@.len() == rf@.len(),
            frame_wf(frame_view(lf), lrows as int),
            frame_wf(frame_view(rf), rrows as int),
            p == frames_p(frame_view(lf), frame_view(rf), null_eq),
            pairs_in_bounds(pairs_view(out@), lrows as int, true),
            pairs_in_bounds(pairs_view(out@), rrows as int, false),
            anti ==> pairs_view(out@) =~= anti_pairs(p, i as int, rrows as int),
            !anti ==> pairs_view(out@) =~= semi_pairs(p, i as int, rrows as int),
        decreases lrows - i,
    {
        let mut j: usize = 0;
        let mut found: bool = false;
        while j < rrows
            invariant
                i < lrows,
                j <= rrows,
                lf@.len() == rf@.len(),
                frame_wf(frame_view(lf), lrows as int),
                frame_wf(frame_view(rf), rrows as int),
                p == frames_p(frame_view(lf), frame_view(rf), null_eq),
                found == has_match(p, i as int, j as int),
            decreases rrows - j,
        {
            if rows_match_exec(lf, rf, i, j, null_eq) {
                found = true;
                proof {
                    assert(p(i as int, j as int));
                    assert(row_pairs(p, i as int, j + 1).len() > 0);
                }
            } else {
                proof {
                    assert(!p(i as int, j as int));
                }
            }
            j = j + 1;
        }
        if found != anti {
            out.push((Some(i), None));
        }
        i = i + 1;
        proof {
            if anti {
                assert(pairs_view(out@) =~= anti_pairs(p, i as int, rrows as int));
            } else {
                assert(pairs_view(out@) =~= semi_pairs(p, i as int, rrows as int));
            }
        }
    }
    out
}

/// Cross join matcher: the full cartesian product, left-major.
pub(crate) fn match_cross(lrows: usize, rrows: usize) -> (r: Vec<IdxPair>)
    ensures
        pairs_view(r@) == cross_pairs(lrows as int, rrows as int),
        pairs_in_bounds(pairs_view(r@), lrows as int, true),
        pairs_in_bounds(pairs_view(r@), rrows as int, false),
{
    let mut out: Vec<IdxPair> = Vec::new();
    let mut i: usize = 0;
    while i < lrows
        invariant
            i <= lrows,
            pairs_in_bounds(pairs_view(out@), lrows as int, true),
            pairs_in_bounds(pairs_view(out@), rrows as int, false),
            pairs_view(out@) =~= cross_pairs(i as int, rrows as int),
        decreases lrows - i,
    {
        let mut j: usize = 0;
        while j < rrows
            invariant
                i < lrows,
                j <= rrows,
                pairs_in_bounds(pairs_view(out@), lrows as int, true),
                pairs_in_bounds(pairs_view(out@), rrows as int, false),
                pairs_view(out@) =~= cross_pairs(i as int, rrows as int) + Seq::new(
                    j as nat,
                    |q: int| ((Some(i as int)), Some(q)),
                ),
            decreases rrows - j,
        {
            let ghost before = out@;
            out.push((Some(i), Some(j)));
            proof {
                assert(out@ == before.push((Some(i), Some(j))));
                assert(pairs_view(out@) =~= pairs_view(before).push(
                    pair_view((Some(i), Some(j))),
                ));
                assert(pair_view((Some(i), Some(j))) == ((Some(i as int)), Some(j as int)));
                assert(Seq::new((j + 1) as nat, |q: int| ((Some(i as int)), Some(q))) =~= Seq::new(
                    j as nat,
                    |q: int| ((Some(i as int)), Some(q)),
                ).push(((Some(i as int)), Some(j as int))));
                assert(pairs_view(out@) =~= cross_pairs(i as int, rrows as int) + Seq::new(
                    (j + 1) as nat,
                    |q: int| ((Some(i as int)), Some(q)),
                ));
            }
            j = j + 1;
        }
        i = i + 1;
        proof {
            assert(pairs_view(out@) =~= cross_pairs(i as int, rrows as int));
        }
    }
    out
}

/// Swaps the two sides of every pair; undoes a build/probe orientation swap.
pub(crate) fn flip_pairs(v: Vec<IdxPair>) -> (r: Vec<IdxPair>)
    ensures
        pairs_view(r@) == flip_seq(pairs_view(v@)),
{
    let n = v.len();
    let mut out: Vec<IdxPair> = Vec::new();
    let mut i: usize = 0;
    while i < n
        invariant
            i <= n,
            n == v@.len(),
            pairs_view(out@) =~= flip_seq(pairs_view(v@)).take(i as int),
        decreases n - i,
    {
        let q = (v[i].1, v[i].0);
        let ghost before = out@;
        out.push(q);
        proof {
            assert(out@ == before.push(q));
            assert(pairs_view(out@) =~= pairs_view(before).push(pair_view(q)));
            assert(flip_seq(pairs_view(v@))[i as int] == pair_view(q));
            assert(flip_seq(pairs_view(v@)).take(i + 1) =~= flip_seq(pairs_view(v@)).take(
                i as int,
            ).push(flip_seq(pairs_view(v@))[i as int]));
            assert(pairs_view(out@) =~= flip_seq(pairs_view(v@)).take(i + 1));
        }
        i = i + 1;
    }
    proof {
        assert(flip_seq(pairs_view(v@)).take(n as int) =~= flip_seq(pairs_view(v@)));
    }
    out
}

} // verus!
