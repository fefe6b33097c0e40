//! Key normalization: converting a pair of key columns of one logical type
//! into a canonical physical form — fixed-width words that preserve
//! equality across the two sides and drop everything else.
//!
//! Integer and boolean keys are encoded value for value.  String keys are
//! interned into a shared symbol list built for the call.  Categorical keys
//! are reconciled through a union dictionary holding every distinct string
//! of either side, so equal strings get equal codes on both sides.

use crate::table::{Cell, ColumnData};
use vstd::prelude::*;

verus! {

/// No two entries of the list are the same string.
pub open spec fn distinct_strs(l: Seq<String>) -> bool {
    forall|a: int, b: int| 0 <= a < b < l.len() ==> l[a]@ != l[b]@
}

/// `lp`/`rp` are equality-preserving physical encodings of the cells of
/// `l`/`r`: a slot is present exactly when the cell is not null, and two
/// present slots are equal exactly when the two cells are equal.
pub open spec fn encodes_pair(
    l: ColumnData,
    r: ColumnData,
    lp: Seq<Option<u64>>,
    rp: Seq<Option<u64>>,
) -> bool {
    &&& lp.len() == l.spec_len()
    &&& rp.len() == r.spec_len()
    &&& forall|i: int| 0 <= i < lp.len() ==> ((#[trigger] lp[i]) is Some <==> l.cell(i) != Cell::Null)
    &&& forall|j: int| 0 <= j < rp.len() ==> ((#[trigger] rp[j]) is Some <==> r.cell(j) != Cell::Null)
    &&& forall|i: int, j: int|
        #![trigger lp[i], rp[j]]
        0 <= i < lp.len() && 0 <= j < rp.len() && lp[i] is Some && rp[j] is Some ==> ((lp[i]
            == rp[j]) <==> l.cell(i) == r.cell(j))
}

/// The position of `s` in the symbol list, interning it at the end if it is
/// new.  Present entries never move, so previously handed-out positions
/// stay valid.
fn intern(list: &mut Vec<String>, s: &String) -> (idx: usize)
    requires
        distinct_strs(old(list)@),
    ensures
        distinct_strs(final(list)@),
        old(list)@.len() <= final(list)@.len(),
        forall|q: int| 0 <= q < old(list)@.len() ==> final(list)@[q] == old(list)@[q],
        idx < final(list)@.len(),
        final(list)@[idx as int]@ == s@,
{
    let n = list.len();
    let mut k: usize = 0;
    while k < n
        invariant
            k <= n,
            n == list@.len(),
            distinct_strs(list@),
            forall|q: int| 0 <= q < k ==> list@[q]@ != s@,
        decreases n - k,
    {
        if list[k].eq(s) {
            return k;
        }
        k = k + 1;
    }
    let ghost old_list = list@;
    list.push(s.clone());
    proof {
        assert(list@[n as int]@ == s@);
        assert forall|a: int, b: int| 0 <= a < b < list@.len() implies list@[a]@ != list@[b]@ by {
            if b == n {
                assert(list@[a]@ == old_list[a]@);
            }
        }
    }
    n
}

/// The logical cell of a plain string column.
pub open spec fn str_cell(v: Seq<Option<String>>, i: int) -> Cell {
    match v[i] {
        Some(s) => Cell::Str(s@),
        None => Cell::Null,
    }
}

/// The logical cell of a categorical column.
pub open spec fn cat_cell(codes: Seq<Option<usize>>, dict: Seq<String>, i: int) -> Cell {
    match codes[i] {
        Some(c) => Cell::Str(dict[c as int]@),
        None => Cell::Null,
    }
}

/// A code vector is an interning of the string cells of `v` against `list`.
spec fn str_codes_ok(v: Seq<Option<String>>, p: Seq<Option<u64>>, list: Seq<String>) -> bool {
    &&& p.len() == v.len()
    &&& forall|q: int| 0 <= q < p.len() ==> ((#[trigger] p[q]) is Some <==> v[q] is Some)
    &&& forall|q: int|
        0 <= q < p.len() ==> ((#[trigger] p[q]) matches Some(c) ==> c < list.len() && list[c as int]@
            == v[q]->0@)
}

/// Encodes one string column against a growing shared symbol list.
fn encode_str_column(v: &Vec<Option<String>>, list: &mut Vec<String>) -> (p: Vec<Option<u64>>)
    requires
        distinct_strs(old(list)@),
    ensures
        distinct_strs(final(list)@),
        old(list)@.len() <= final(list)@.len(),
        forall|q: int| 0 <= q < old(list)@.len() ==> final(list)@[q] == old(list)@[q],
        str_codes_ok(v@, p@, final(list)@),
{
    let n = v.len();
    let mut p: Vec<Option<u64>> = Vec::new();
    let mut i: usize = 0;
    while i < n
        invariant
            i <= n,
            n == v@.len(),
            distinct_strs(list@),
            old(list)@.len() <= list@.len(),
            forall|q: int| 0 <= q < old(list)@.len() ==> list@[q] == old(list)@[q],
            p@.len() == i,
            forall|q: int| 0 <= q < i ==> ((#[trigger] p@[q]) is Some <==> v@[q] is Some),
            forall|q: int|
                0 <= q < i ==> ((#[trigger] p@[q]) matches Some(c) ==> c < list@.len() && list@[c as int]@
                    == v@[q]->0@),
        decreases n - i,
    {
        let ghost plist = list@;
        match &v[i] {
            Some(s) => {
                let c = intern(list, s);
                p.push(Some(c as u64));
                proof {
                    assert forall|q: int|
                        0 <= q < i + 1 implies ((#[trigger] p@[q]) matches Some(c2) ==> c2
                        < list@.len() && list@[c2 as int]@ == v@[q]->0@) by {
                        if q < i && p@[q] is Some {
                            let c2 = p@[q]->0;
                            assert(c2 < plist.len() && plist[c2 as int]@ == v@[q]->0@);
                            assert(list@[c2 as int] == plist[c2 as int]);
                        }
                    }
                }
            },
            None => {
                p.push(None);
            },
        }
        i = i + 1;
    }
    p
}

/// Encodes a pair of plain string key columns into shared codes.
fn encode_strs(lv: &Vec<Option<String>>, rv: &Vec<Option<String>>) -> (r: (
    Vec<Option<u64>>,
    Vec<Option<u64>>,
))
    ensures
        encodes_pair(ColumnData::Strs(*lv), ColumnData::Strs(*rv), r.0@, r.1@),
{
    let mut list: Vec<String> = Vec::new();
    let lp = encode_str_column(lv, &mut list);
    let ghost mid = list@;
    let rp = encode_str_column(rv, &mut list);
    proof {
        let l = ColumnData::Strs(*lv);
        let rr = ColumnData::Strs(*rv);
        assert forall|q: int|
            0 <= q < lp@.len() implies ((#[trigger] lp@[q]) matches Some(c) ==> c < list@.len()
            && list@[c as int]@ == lv@[q]->0@) by {
            if lp@[q] is Some {
                assert(lp@[q]->0 < mid.len() && mid[lp@[q]->0 as int]@ == lv@[q]->0@);
                assert(list@[lp@[q]->0 as int] == mid[lp@[q]->0 as int]);
            }
        }
        assert forall|i: int, j: int|
            #![trigger lp@[i], rp@[j]]
            0 <= i < lp@.len() && 0 <= j < rp@.len() && lp@[i] is Some && rp@[j] is Some implies ((
        lp@[i] == rp@[j]) <==> l.cell(i) == rr.cell(j)) by {
            let ci = lp@[i]->0;
            let cj = rp@[j]->0;
            assert(ci < list@.len() && list@[ci as int]@ == lv@[i]->0@);
            assert(cj < list@.len() && list@[cj as int]@ == rv@[j]->0@);
            if ci != cj {
                if ci < cj {
                    assert(list@[ci as int]@ != list@[cj as int]@);
                } else {
                    assert(list@[cj as int]@ != list@[ci as int]@);
                }
            }
        }
    }
    (lp, rp)
}

/// A translation table from one side's dictionary into the union list:
/// entry `k` is the union code of dictionary entry `k`.
pub open spec fn dict_map_ok(dict: Seq<String>, map: Seq<u64>, list: Seq<String>) -> bool {
    &&& map.len() == dict.len()
    &&& forall|k: int|
        0 <= k < map.len() ==> (#[trigger] map[k]) < list.len() && list[map[k] as int]@
            == dict[k]@
}

/// Interns every entry of one side's dictionary, yielding its translation
/// table into the union list.
pub(crate) fn union_dict_map(dict: &Vec<String>, list: &mut Vec<String>) -> (map: Vec<u64>)
    requires
        distinct_strs(old(list)@),
    ensures
        distinct_strs(final(list)@),
        old(list)@.len() <= final(list)@.len(),
        forall|q: int| 0 <= q < old(list)@.len() ==> final(list)@[q] == old(list)@[q],
        dict_map_ok(dict@, map@, final(list)@),
{
    let n = dict.len();
    let mut map: Vec<u64> = Vec::new();
    let mut k: usize = 0;
    while k < n
        invariant
            k <= n,
            n == dict@.len(),
            distinct_strs(list@),
            old(list)@.len() <= list@.len(),
            forall|q: int| 0 <= q < old(list)@.len() ==> list@[q] == old(list)@[q],
            map@.len() == k,
            forall|q: int|
                0 <= q < k ==> (#[trigger] map@[q]) < list@.len() && list@[map@[q] as int]@
                    == dict@[q]@,
        decreases n - k,
    {
        let c = intern(list, &dict[k]);
        map.push(c as u64);
        k = k + 1;
    }
    map
}

/// Re-encodes one categorical column's codes through a translation table.
fn recode_cats(codes: &Vec<Option<usize>>, map: &Vec<u64>) -> (p: Vec<Option<u64>>)
    requires
        forall|q: int|
            0 <= q < codes@.len() ==> ((#[trigger] codes@[q]) matches Some(c) ==> c < map@.len()),
    ensures
        p@.len() == codes@.len(),
        forall|q: int| 0 <= q < p@.len() ==> ((#[trigger] p@[q]) is Some <==> codes@[q] is Some),
        forall|q: int|
            0 <= q < p@.len() ==> ((#[trigger] codes@[q]) matches Some(c) ==> p@[q] == Some(
                map@[c as int],
            )),
    decreases codes@.len(),
{
    let n = codes.len();
    let mut p: Vec<Option<u64>> = Vec::new();
    let mut i: usize = 0;
    while i < n
        invariant
            i <= n,
            n == codes@.len(),
            forall|q: int|
                0 <= q < codes@.len() ==> ((#[trigger] codes@[q]) matches Some(c) ==> c
                    < map@.len()),
            p@.len() == i,
            forall|q: int| 0 <= q < i ==> ((#[trigger] p@[q]) is Some <==> codes@[q] is Some),
            forall|q: int|
                0 <= q < i ==> ((#[trigger] codes@[q]) matches Some(c) ==> p@[q] == Some(
                    map@[c as int],
                )),
        decreases n - i,
    {
        match &codes[i] {
            Some(c) => {
                p.push(Some(map[*c]));
            },
            None => {
                p.push(None);
            },
        }
        i = i + 1;
    }
    p
}

/// Reconciles a pair of categorical key columns: builds the union
/// dictionary of both sides and re-encodes both code vectors against it.
fn encode_cats(
    lcodes: &Vec<Option<usize>>,
    ldict: &Vec<String>,
    rcodes: &Vec<Option<usize>>,
    rdict: &Vec<String>,
) -> (r: (Vec<Option<u64>>, Vec<Option<u64>>))
    requires
        (ColumnData::Cats { codes: *lcodes, dict: *ldict }).wf(),
        (ColumnData::Cats { codes: *rcodes, dict: *rdict }).wf(),
    ensures
        encodes_pair(
            ColumnData::Cats { codes: *lcodes, dict: *ldict },
            ColumnData::Cats { codes: *rcodes, dict: *rdict },
            r.0@,
            r.1@,
        ),
{
    let mut list: Vec<String> = Vec::new();
    let lmap = union_dict_map(ldict, &mut list);
    let ghost mid = list@;
    let rmap = union_dict_map(rdict, &mut list);
    let lp = recode_cats(lcodes, &lmap);
    let rp = recode_cats(rcodes, &rmap);
    proof {
        let l = ColumnData::Cats { codes: *lcodes, dict: *ldict };
        let rr = ColumnData::Cats { codes: *rcodes, dict: *rdict };
        assert forall|k: int|
            0 <= k < lmap@.len() implies (#[trigger] lmap@[k]) < list@.len() && list@[lmap@[k] as int]@
            == ldict@[k]@ by {
            assert(lmap@[k] < mid.len() && mid[lmap@[k] as int]@ == ldict@[k]@);
            assert(list@[lmap@[k] as int] == mid[lmap@[k] as int]);
        }
        assert forall|i: int|
            0 <= i < lp@.len() implies ((#[trigger] lp@[i]) is Some <==> l.cell(i) != Cell::Null)
            by {}
        assert forall|j: int|
            0 <= j < rp@.len() implies ((#[trigger] rp@[j]) is Some <==> rr.cell(j) != Cell::Null)
            by {}
        assert forall|i: int, j: int|
            #![trigger lp@[i], rp@[j]]
            0 <= i < lp@.len() && 0 <= j < rp@.len() && lp@[i] is Some && rp@[j] is Some implies ((
        lp@[i] == rp@[j]) <==> l.cell(i) == rr.cell(j)) by {
            let ci = lcodes@[i]->0;
            let cj = rcodes@[j]->0;
            assert(lp@[i] == Some(lmap@[ci as int]));
            assert(rp@[j] == Some(rmap@[cj as int]));
            let ui = lmap@[ci as int];
            let uj = rmap@[cj as int];
            assert(ui < list@.len() && list@[ui as int]@ == ldict@[ci as int]@);
            assert(uj < list@.len() && list@[uj as int]@ == rdict@[cj as int]@);
            if ui != uj {
                if ui < uj {
                    assert(list@[ui as int]@ != list@[uj as int]@);
                } else {
                    assert(list@[uj as int]@ != list@[ui as int]@);
                }
            }
        }
    }
    (lp, rp)
}

proof fn lemma_i64_u64_inj(x: i64, y: i64)
    ensures
        (x as u64 == y as u64) <==> x == y,
{
    assert((x as u64 == y as u64) <==> x == y) by (bit_vector);
}

/// Encodes one integer column: the value's machine word, null kept null.
fn encode_ints(v: &Vec<Option<i64>>) -> (p: Vec<Option<u64>>)
    ensures
        p@.len() == v@.len(),
        forall|q: int| 0 <= q < p@.len() ==> ((#[trigger] p@[q]) is Some <==> v@[q] is Some),
        forall|q: int|
            0 <= q < p@.len() ==> ((#[trigger] v@[q]) matches Some(x) ==> p@[q] == Some(
                x as u64,
            )),
{
    let n = v.len();
    let mut p: Vec<Option<u64>> = Vec::new();
    let mut i: usize = 0;
    while i < n
        invariant
            i <= n,
            n == v@.len(),
            p@.len() == i,
            forall|q: int| 0 <= q < i ==> ((#[trigger] p@[q]) is Some <==> v@[q] is Some),
            forall|q: int|
                0 <= q < i ==> ((#[trigger] v@[q]) matches Some(x) ==> p@[q] == Some(x as u64)),
        decreases n - i,
    {
        match &v[i] {
            Some(x) => {
                p.push(Some(*x as u64));
            },
            None => {
                p.push(None);
            },
        }
        i = i + 1;
    }
    p
}

/// Encodes one boolean column: one word for `true`, zero for `false`.
fn encode_bools(v: &Vec<Option<bool>>) -> (p: Vec<Option<u64>>)
    ensures
        p@.len() == v@.len(),
        forall|q: int| 0 <= q < p@.len() ==> ((#[trigger] p@[q]) is Some <==> v@[q] is Some),
        forall|q: int|
            0 <= q < p@.len() ==> ((#[trigger] v@[q]) matches Some(b) ==> p@[q] == Some(
                if b {
                    1u64
                } else {
                    0u64
                },
            )),
{
    let n = v.len();
    let mut p: Vec<Option<u64>> = Vec::new();
    let mut i: usize = 0;
    while i < n
        invariant
            i <= n,
            n == v@.len(),
            p@.len() == i,
            forall|q: int| 0 <= q < i ==> ((#[trigger] p@[q]) is Some <==> v@[q] is Some),
            forall|q: int|
                0 <= q < i ==> ((#[trigger] v@[q]) matches Some(b) ==> p@[q] == Some(
                    if b {
                        1u64
                    } else {
                        0u64
                    },
                )),
        decreases n - i,
    {
        match &v[i] {
            Some(b) => {
                p.push(Some(if *b {
                    1u64
                } else {
                    0u64
                }));
            },
            None => {
                p.push(None);
            },
        }
        i = i + 1;
    }
    p
}

/// Normalizes one key pair of equal logical type into its canonical
/// physical form.  Categorical pairs are reconciled through a union
/// dictionary first; a pair where only one side is categorical never
/// reaches this point, since the types would differ.
pub(crate) fn normalize_pair(l: &ColumnData, r: &ColumnData) -> (out: (
    Vec<Option<u64>>,
    Vec<Option<u64>>,
))
    requires
        l.wf(),
        r.wf(),
        l.spec_dtype() == r.spec_dtype(),
    ensures
        encodes_pair(*l, *r, out.0@, out.1@),
{
    match (l, r) {
        (ColumnData::Ints(lv), ColumnData::Ints(rv)) => {
            let lp = encode_ints(lv);
            let rp = encode_ints(rv);
            proof {
                assert forall|i: int, j: int|
                    #![trigger lp@[i], rp@[j]]
                    0 <= i < lp@.len() && 0 <= j < rp@.len() && lp@[i] is Some && rp@[j] is Some
                        implies ((lp@[i] == rp@[j]) <==> l.cell(i) == r.cell(j)) by {
                    lemma_i64_u64_inj(lv@[i]->0, rv@[j]->0);
                }
            }
            (lp, rp)
        },
        (ColumnData::Bools(lv), ColumnData::Bools(rv)) => {
            let lp = encode_bools(lv);
            let rp = encode_bools(rv);
            (lp, rp)
        },
        (ColumnData::Strs(lv), ColumnData::Strs(rv)) => encode_strs(lv, rv),
        (
            ColumnData::Cats { codes: lcodes, dict: ldict },
            ColumnData::Cats { codes: rcodes, dict: rdict },
        ) => encode_cats(lcodes, ldict, rcodes, rdict),
        _ => vstd::pervasive::unreached(),
    }
}

} // verus!
