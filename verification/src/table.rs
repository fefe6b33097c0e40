//! The columnar data model the join engine works on: tables of named,
//! equal-length typed columns.  A column holds integers, booleans, strings,
//! or dictionary-encoded strings (categoricals); every slot may be null.

use vstd::prelude::*;

verus! {

/// The logical value of one table cell.  A categorical cell is the string
/// its code stands for, so two categorical columns with different
/// dictionaries still have comparable cells.
pub ghost enum Cell {
    Null,
    Int(int),
    Bool(bool),
    Str(Seq<char>),
}

/// The logical type of a column.
#[derive(Clone, Copy, Debug, PartialEq, Eq, Structural)]
pub enum DataType {
    Int,
    Bool,
    Str,
    /// Dictionary-encoded strings: integer codes plus a code-to-string
    /// dictionary.
    Cat,
}

/// The typed values of a column.
#[derive(Debug)]
pub enum ColumnData {
    Ints(Vec<Option<i64>>),
    Bools(Vec<Option<bool>>),
    Strs(Vec<Option<String>>),
    Cats { codes: Vec<Option<usize>>, dict: Vec<String> },
}

impl ColumnData {
    /// The number of rows.
    pub open spec fn spec_len(&self) -> nat {
        match self {
            ColumnData::Ints(v) => v@.len(),
            ColumnData::Bools(v) => v@.len(),
            ColumnData::Strs(v) => v@.len(),
            ColumnData::Cats { codes, dict } => codes@.len(),
        }
    }

    /// Validity: categorical codes index into the dictionary and the
    /// dictionary has no repeated entry, so equal codes mean equal strings
    /// and unequal codes mean unequal strings.
    pub open spec fn wf(&self) -> bool {
        match self {
            ColumnData::Cats { codes, dict } => {
                &&& forall|i: int|
                    0 <= i < codes@.len() ==> ((#[trigger] codes@[i]) matches Some(c) ==> c
                        < dict@.len())
                &&& forall|a: int, b: int|
                    0 <= a < b < dict@.len() ==> dict@[a]@ != dict@[b]@
            },
            _ => true,
        }
    }

    pub open spec fn spec_dtype(&self) -> DataType {
        match self {
            ColumnData::Ints(_) => DataType::Int,
            ColumnData::Bools(_) => DataType::Bool,
            ColumnData::Strs(_) => DataType::Str,
            ColumnData::Cats { .. } => DataType::Cat,
        }
    }

    /// The logical value of the cell in row `i`.
    pub open spec fn cell(&self, i: int) -> Cell
        recommends
            0 <= i < self.spec_len(),
            self.wf(),
    {
        match self {
            ColumnData::Ints(v) => match v@[i] {
                Some(x) => Cell::Int(x as int),
                None => Cell::Null,
            },
            ColumnData::Bools(v) => match v@[i] {
                Some(b) => Cell::Bool(b),
                None => Cell::Null,
            },
            ColumnData::Strs(v) => match v@[i] {
                Some(s) => Cell::Str(s@),
                None => Cell::Null,
            },
            ColumnData::Cats { codes, dict } => match codes@[i] {
                Some(c) => Cell::Str(dict@[c as int]@),
                None => Cell::Null,
            },
        }
    }

    /// All cells of the column, in row order.
    pub open spec fn cells(&self) -> Seq<Cell> {
        Seq::new(self.spec_len(), |i: int| self.cell(i))
    }

    pub fn dtype(&self) -> (r: DataType)
        ensures
            r == self.spec_dtype(),
    {
        match self {
            ColumnData::Ints(_) => DataType::Int,
            ColumnData::Bools(_) => DataType::Bool,
            ColumnData::Strs(_) => DataType::Str,
            ColumnData::Cats { .. } => DataType::Cat,
        }
    }

    pub fn len(&self) -> (r: usize)
        ensures
            r == self.spec_len(),
    {
        match self {
            ColumnData::Ints(v) => v.len(),
            ColumnData::Bools(v) => v.len(),
            ColumnData::Strs(v) => v.len(),
            ColumnData::Cats { codes, .. } => codes.len(),
        }
    }

    /// Whether rows `i` and `j` of this column hold the same logical value;
    /// two nulls count as the same.
    pub fn cells_eq(&self, i: usize, j: usize) -> (r: bool)
        requires
            self.wf(),
            i < self.spec_len(),
            j < self.spec_len(),
        ensures
            r == (self.cell(i as int) == self.cell(j as int)),
    {
        match self {
            ColumnData::Ints(v) => match (&v[i], &v[j]) {
                (Some(a), Some(b)) => *a == *b,
                (None, None) => true,
                _ => false,
            },
            ColumnData::Bools(v) => match (&v[i], &v[j]) {
                (Some(a), Some(b)) => *a == *b,
                (None, None) => true,
                _ => false,
            },
            ColumnData::Strs(v) => match (&v[i], &v[j]) {
                (Some(a), Some(b)) => a.eq(b),
                (None, None) => true,
                _ => false,
            },
            ColumnData::Cats { codes, dict } => match (&codes[i], &codes[j]) {
                (Some(a), Some(b)) => {
                    proof {
                        if *a != *b {
                            if *a < *b {
                                assert(dict@[*a as int]@ != dict@[*b as int]@);
                            } else {
                                assert(dict@[*b as int]@ != dict@[*a as int]@);
                            }
                        }
                    }
                    *a == *b
                },
                (None, None) => true,
                _ => false,
            },
        }
    }
}

/// A named column.
#[derive(Debug)]
pub struct Column {
    pub name: String,
    pub data: ColumnData,
}

impl Column {
    pub open spec fn wf(&self) -> bool {
        self.data.wf()
    }
}

/// An ordered set of named, equal-length columns.  Join operations produce
/// new tables and never mutate their inputs.
#[derive(Debug)]
pub struct Table {
    pub height: usize,
    pub columns: Vec<Column>,
}

impl Table {
    /// Validity: every column is valid and has exactly `height` rows.
    pub open spec fn wf(&self) -> bool {
        forall|k: int|
            0 <= k < self.columns@.len() ==> (#[trigger] self.columns@[k]).wf()
                && self.columns@[k].data.spec_len() == self.height
    }

    /// The name sequences of the columns, in order.
    pub open spec fn spec_names(&self) -> Seq<Seq<char>> {
        Seq::new(self.columns@.len(), |k: int| self.columns@[k].name@)
    }

    /// An empty table with the given number of rows and no columns.
    pub fn new_empty(height: usize) -> (r: Table)
        ensures
            r.wf(),
            r.height == height,
            r.columns@.len() == 0,
    {
        Table { height, columns: Vec::new() }
    }

    /// Builds a table from columns, checking that they are valid and all of
    /// one length.  Returns `None` otherwise, or when there is no column to
    /// take the height from.
    pub fn try_new(columns: Vec<Column>) -> (r: Option<Table>)
        ensures
            r matches Some(t) ==> {
                &&& t.wf()
                &&& t.columns == columns
                &&& columns@.len() > 0
                &&& t.height == columns@[0].data.spec_len()
            },
            ({
                &&& columns@.len() > 0
                &&& forall|k: int|
                    0 <= k < columns@.len() ==> (#[trigger] columns@[k]).wf()
                        && columns@[k].data.spec_len() == columns@[0].data.spec_len()
            }) ==> r is Some,
    {
        if columns.len() == 0 {
            return None;
        }
        let height = columns[0].data.len();
        let n = columns.len();
        let mut k: usize = 0;
        while k < n
            invariant
                k <= n,
                n == columns@.len(),
                height == columns@[0].data.spec_len(),
                forall|q: int|
                    0 <= q < k ==> (#[trigger] columns@[q]).wf() && columns@[q].data.spec_len()
                        == height,
            decreases n - k,
        {
            if columns[k].data.len() != height {
                return None;
            }
            if !column_data_wf_check(&columns[k].data) {
                return None;
            }
            k = k + 1;
        }
        Some(Table { height, columns })
    }

    pub fn height(&self) -> (r: usize)
        ensures
            r == self.height,
    {
        self.height
    }

    pub fn width(&self) -> (r: usize)
        ensures
            r == self.columns@.len(),
    {
        self.columns.len()
    }

    /// The index of the first column with the given name, if any.
    pub fn find_col(&self, name: &String) -> (r: Option<usize>)
        ensures
            r matches Some(k) ==> {
                &&& k < self.columns@.len()
                &&& self.columns@[k as int].name@ == name@
                &&& forall|q: int| 0 <= q < k ==> self.columns@[q].name@ != name@
            },
            r is None ==> forall|q: int|
                0 <= q < self.columns@.len() ==> self.columns@[q].name@ != name@,
    {
        let n = self.columns.len();
        let mut k: usize = 0;
        while k < n
            invariant
                k <= n,
                n == self.columns@.len(),
                forall|q: int| 0 <= q < k ==> self.columns@[q].name@ != name@,
            decreases n - k,
        {
            if self.columns[k].name.eq(name) {
                return Some(k);
            }
            k = k + 1;
        }
        None
    }
}

/// Runs the validity checks of [`ColumnData::wf`] on a concrete column.
fn column_data_wf_check(data: &ColumnData) -> (r: bool)
    ensures
        r == data.wf(),
{
    match data {
        ColumnData::Ints(_) => true,
        ColumnData::Bools(_) => true,
        ColumnData::Strs(_) => true,
        ColumnData::Cats { codes, dict } => {
            let codes_ok = cats_codes_ok(codes, dict);
            let dict_ok = dict_distinct(dict);
            codes_ok && dict_ok
        },
    }
}

/// Whether every present code indexes into the dictionary.
fn cats_codes_ok(codes: &Vec<Option<usize>>, dict: &Vec<String>) -> (r: bool)
    ensures
        r == (forall|i: int|
            0 <= i < codes@.len() ==> ((#[trigger] codes@[i]) matches Some(c) ==> c
                < dict@.len())),
{
    let n = codes.len();
    let mut i: usize = 0;
    while i < n
        invariant
            i <= n,
            n == codes@.len(),
            forall|q: int|
                0 <= q < i ==> ((#[trigger] codes@[q]) matches Some(c) ==> c < dict@.len()),
        decreases n - i,
    {
        match &codes[i] {
            Some(c) => {
                if *c >= dict.len() {
                    proof {
                        assert(codes@[i as int] matches Some(cc) && cc >= dict@.len());
                    }
                    return false;
                }
            },
            None => {},
        }
        i = i + 1;
    }
    true
}

/// Whether no two dictionary entries are the same string.
pub(crate) fn dict_distinct(dict: &Vec<String>) -> (r: bool)
    ensures
        r == (forall|a: int, b: int| 0 <= a < b < dict@.len() ==> dict@[a]@ != dict@[b]@),
{
    let m = dict.len();
    let mut a: usize = 0;
    while a < m
        invariant
            a <= m,
            m == dict@.len(),
            forall|x: int, y: int| 0 <= x < a && x < y < m ==> dict@[x]@ != dict@[y]@,
        decreases m - a,
    {
        let mut b: usize = a + 1;
        while b < m
            invariant
                a < b,
                a < m,
                b <= m,
                m == dict@.len(),
                forall|x: int, y: int| 0 <= x < a && x < y < m ==> dict@[x]@ != dict@[y]@,
                forall|y: int| a < y < b ==> dict@[a as int]@ != dict@[y]@,
            decreases m - b,
        {
            if dict[a].eq(&dict[b]) {
                proof {
                    assert(dict@[a as int]@ == dict@[b as int]@);
                }
                return false;
            }
            b = b + 1;
        }
        a = a + 1;
    }
    true
}

} // verus!
