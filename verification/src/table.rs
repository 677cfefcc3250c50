//! The columnar table the engine queries: named columns of cells, the
//! synthetic row-id column, row search text and per-column text vectors.

use vstd::prelude::*;

use crate::mask::{assoc_lookup, colmap_view};
use crate::search::{strs_view};
use crate::text::{
    chars_of, lower_of, lowercase_chars, push_all, string_from_chars,
};
use crate::value::{cell_search_chars, clone_cell, value_to_search_string, Cell, CellVal};

verus! {

/// A named column of cells.
#[derive(Debug)]
pub struct Column {
    pub name: String,
    pub cells: Vec<Cell>,
}

/// An ordered columnar table; the engine addresses rows by 0-based position.
#[derive(Debug)]
pub struct Table {
    pub columns: Vec<Column>,
    pub row_count: usize,
}

/// The view of a cell vector.
pub open spec fn cells_view(s: Seq<Cell>) -> Seq<CellVal> {
    Seq::new(s.len(), |i: int| s[i]@)
}

/// The view of a column list: `(name, cells)` pairs.
pub open spec fn cols_view(cs: Seq<Column>) -> Seq<(Seq<char>, Seq<CellVal>)> {
    Seq::new(cs.len(), |i: int| (cs[i].name@, cells_view(cs[i].cells@)))
}

impl View for Table {
    type V = Seq<(Seq<char>, Seq<CellVal>)>;

    open spec fn view(&self) -> Seq<(Seq<char>, Seq<CellVal>)> {
        cols_view(self.columns@)
    }
}

/// Every column holds exactly `row_count` cells.
pub open spec fn table_wf(t: Table) -> bool {
    forall|i: int| 0 <= i < t@.len() ==> (#[trigger] t@[i]).1.len() == t.row_count
}

/// The name of the synthetic row-id column, hidden from all user-visible
/// operations.
pub open spec fn rowid_chars() -> Seq<char> {
    seq!['_', '_', 'r', 'o', 'w', 'i', 'd']
}

/// A fresh string naming the synthetic row-id column.
pub fn rowid_name() -> (r: String)
    ensures
        r@ == rowid_chars(),
{
    proof {
        reveal_strlit("__rowid");
    }
    let r = String::from_str("__rowid");
    assert(r@ =~= rowid_chars());
    r
}

impl Table {
    /// Builds a table from columns, refusing ragged column lengths.
    pub fn new(columns: Vec<Column>) -> (r: Option<Table>)
        ensures
            match r {
                Option::Some(t) => t@ == cols_view(columns@) && table_wf(t),
                Option::None => true,
            },
    {
        let row_count: usize = if columns.len() == 0 {
            0
        } else {
            columns[0].cells.len()
        };
        let n = columns.len();
        let mut i: usize = 0;
        while i < n
            invariant
                n == columns@.len(),
                0 <= i <= n,
                forall|k: int|
                    0 <= k < i ==> (#[trigger] columns@[k]).cells@.len() == row_count,
            decreases n - i,
        {
            if columns[i].cells.len() != row_count {
                return Option::None;
            }
            i += 1;
        }
        let t = Table { columns, row_count };
        assert(forall|k: int| 0 <= k < t@.len() ==> (#[trigger] t@[k]).1.len() == t.row_count);
        Option::Some(t)
    }
}

/// First column whose name is exactly `name`.
pub open spec fn find_col(tv: Seq<(Seq<char>, Seq<CellVal>)>, name: Seq<char>) -> Option<
    Seq<CellVal>,
>
    decreases tv.len(),
{
    if tv.len() == 0 {
        Option::None
    } else if tv[0].0 == name {
        Option::Some(tv[0].1)
    } else {
        find_col(tv.drop_first(), name)
    }
}

/// Last column whose lowercased name is `col`.
pub open spec fn find_col_lower(tv: Seq<(Seq<char>, Seq<CellVal>)>, col: Seq<char>) -> Option<
    Seq<CellVal>,
>
    decreases tv.len(),
{
    if tv.len() == 0 {
        Option::None
    } else if lower_of(tv.last().0) == col {
        Option::Some(tv.last().1)
    } else {
        find_col_lower(tv.drop_last(), col)
    }
}

/// The lowercase search piece of column `name` at `row`: empty when the
/// column is missing, the row is out of range, or the cell renders to
/// nothing.
pub open spec fn piece_of(
    tv: Seq<(Seq<char>, Seq<CellVal>)>,
    name: Seq<char>,
    row: int,
) -> Seq<char> {
    match find_col(tv, name) {
        Option::Some(cells) => {
            if 0 <= row < cells.len() {
                match cell_search_chars(cells[row]) {
                    Option::Some(s) => lower_of(s),
                    Option::None => Seq::empty(),
                }
            } else {
                Seq::empty()
            }
        },
        Option::None => Seq::empty(),
    }
}

/// The row text: the non-empty lowercase pieces of the scope columns joined
/// by single spaces, in column order.
pub open spec fn row_text_from(
    tv: Seq<(Seq<char>, Seq<CellVal>)>,
    cols: Seq<Seq<char>>,
    ci: int,
    row: int,
    acc: Seq<char>,
) -> Seq<char>
    decreases cols.len() - ci,
{
    if !(0 <= ci < cols.len()) {
        acc
    } else {
        let piece = piece_of(tv, cols[ci], row);
        let acc2 = if piece.len() == 0 {
            acc
        } else if acc.len() == 0 {
            piece
        } else {
            acc + seq![' '] + piece
        };
        row_text_from(tv, cols, ci + 1, row, acc2)
    }
}

/// The row text of `row` over the scope columns `cols`.
pub open spec fn spec_row_text(
    tv: Seq<(Seq<char>, Seq<CellVal>)>,
    cols: Seq<Seq<char>>,
    row: int,
) -> Seq<char> {
    row_text_from(tv, cols, 0, row, Seq::empty())
}

/// The lowercase text of the column addressed by lowercased name `col` at
/// `row`; empty when absent.
pub open spec fn spec_col_text(
    tv: Seq<(Seq<char>, Seq<CellVal>)>,
    col: Seq<char>,
    row: int,
) -> Seq<char> {
    match find_col_lower(tv, col) {
        Option::Some(cells) => {
            if 0 <= row < cells.len() {
                match cell_search_chars(cells[row]) {
                    Option::Some(s) => lower_of(s),
                    Option::None => Seq::empty(),
                }
            } else {
                Seq::empty()
            }
        },
        Option::None => Seq::empty(),
    }
}

proof fn lemma_find_col_first(tv: Seq<(Seq<char>, Seq<CellVal>)>, name: Seq<char>, j: int)
    requires
        0 <= j < tv.len(),
        forall|k: int| 0 <= k < j ==> tv[k].0 != name,
        tv[j].0 == name,
    ensures
        find_col(tv, name) == Option::Some(tv[j].1),
    decreases j,
{
    if j > 0 {
        lemma_find_col_first(tv.drop_first(), name, j - 1);
    }
}

proof fn lemma_find_col_none(tv: Seq<(Seq<char>, Seq<CellVal>)>, name: Seq<char>)
    requires
        forall|k: int| 0 <= k < tv.len() ==> tv[k].0 != name,
    ensures
        find_col(tv, name) == Option::<Seq<CellVal>>::None,
    decreases tv.len(),
{
    if tv.len() > 0 {
        lemma_find_col_none(tv.drop_first(), name);
    }
}

proof fn lemma_find_col_lower_last(tv: Seq<(Seq<char>, Seq<CellVal>)>, col: Seq<char>, j: int)
    requires
        0 <= j < tv.len(),
        forall|k: int| j < k < tv.len() ==> lower_of(tv[k].0) != col,
        lower_of(tv[j].0) == col,
    ensures
        find_col_lower(tv, col) == Option::Some(tv[j].1),
    decreases tv.len(),
{
    if j + 1 < tv.len() {
        lemma_find_col_lower_last(tv.drop_last(), col, j);
    }
}

proof fn lemma_find_col_lower_none(tv: Seq<(Seq<char>, Seq<CellVal>)>, col: Seq<char>)
    requires
        forall|k: int| 0 <= k < tv.len() ==> lower_of(tv[k].0) != col,
    ensures
        find_col_lower(tv, col) == Option::<Seq<CellVal>>::None,
    decreases tv.len(),
{
    if tv.len() > 0 {
        lemma_find_col_lower_none(tv.drop_last(), col);
    }
}

/// Finds the first column named exactly `name`.
pub fn find_column<'a>(t: &'a Table, name: &String) -> (r: Option<&'a Column>)
    ensures
        match r {
            Option::Some(c) => find_col(t@, name@) == Option::Some(cells_view(c.cells@)),
            Option::None => find_col(t@, name@) == Option::<Seq<CellVal>>::None,
        },
{
    let n = t.columns.len();
    let mut i: usize = 0;
    while i < n
        invariant
            n == t.columns@.len(),
            0 <= i <= n,
            forall|k: int| 0 <= k < i ==> t@[k].0 != name@,
        decreases n - i,
    {
        if crate::search::str_eq(&t.columns[i].name, name) {
            proof {
                lemma_find_col_first(t@, name@, i as int);
            }
            return Option::Some(&t.columns[i]);
        }
        i += 1;
    }
    proof {
        lemma_find_col_none(t@, name@);
    }
    Option::None
}

/// Finds the last column whose lowercased name is `col`.
pub fn find_column_lower<'a>(t: &'a Table, col: &String) -> (r: Option<&'a Column>)
    ensures
        match r {
            Option::Some(c) => find_col_lower(t@, col@) == Option::Some(cells_view(c.cells@)),
            Option::None => find_col_lower(t@, col@) == Option::<Seq<CellVal>>::None,
        },
{
    let n = t.columns.len();
    let col_chars = chars_of(col.as_str());
    let mut i: usize = n;
    while i > 0
        invariant
            n == t.columns@.len(),
            col_chars@ == col@,
            0 <= i <= n,
            forall|k: int| i <= k < n ==> lower_of(t@[k].0) != col@,
        decreases i,
    {
        i -= 1;
        let name_chars = chars_of(t.columns[i].name.as_str());
        let lowered = lowercase_chars(&name_chars);
        if crate::text::chars_eq(&lowered, &col_chars) {
            proof {
                lemma_find_col_lower_last(t@, col@, i as int);
            }
            return Option::Some(&t.columns[i]);
        }
    }
    proof {
        lemma_find_col_lower_none(t@, col@);
    }
    Option::None
}

/// The lowercase search piece of one cell of a column, as characters.
fn cell_piece(c: &Column, row: usize) -> (r: Vec<char>)
    ensures
        r@ == (if 0 <= row < cells_view(c.cells@).len() {
            match cell_search_chars(cells_view(c.cells@)[row as int]) {
                Option::Some(s) => lower_of(s),
                Option::None => Seq::<char>::empty(),
            }
        } else {
            Seq::<char>::empty()
        }),
{
    if row < c.cells.len() {
        match value_to_search_string(&c.cells[row]) {
            Option::Some(s) => {
                let cs = chars_of(s.as_str());
                lowercase_chars(&cs)
            },
            Option::None => Vec::new(),
        }
    } else {
        Vec::new()
    }
}

/// Builds the lowercase row text for each of `row_count` rows by joining the
/// non-empty search pieces of the scope columns with single spaces.
pub fn build_searchable_text(row_count: usize, search_cols: &Vec<String>, table: &Table) -> (r:
    Vec<String>)
    ensures
        r@.len() == row_count,
        forall|i: int|
            0 <= i < row_count ==> (#[trigger] r@[i])@ == spec_row_text(
                table@,
                strs_view(search_cols@),
                i,
            ),
{
    let ghost tv = table@;
    let ghost cv = strs_view(search_cols@);
    let nc = search_cols.len();
    let mut r: Vec<String> = Vec::new();
    let mut row: usize = 0;
    while row < row_count
        invariant
            nc == search_cols@.len(),
            tv == table@,
            cv == strs_view(search_cols@),
            0 <= row <= row_count,
            r@.len() == row,
            forall|i: int|
                0 <= i < row ==> (#[trigger] r@[i])@ == spec_row_text(tv, cv, i),
        decreases row_count - row,
    {
        let mut acc: Vec<char> = Vec::new();
        let mut ci: usize = 0;
        proof {
            assert(acc@ =~= Seq::<char>::empty());
        }
        while ci < nc
            invariant
                nc == search_cols@.len(),
                tv == table@,
                cv == strs_view(search_cols@),
                0 <= ci <= nc,
                row_text_from(tv, cv, ci as int, row as int, acc@) == spec_row_text(
                    tv,
                    cv,
                    row as int,
                ),
            decreases nc - ci,
        {
            let piece = match find_column(table, &search_cols[ci]) {
                Option::Some(c) => cell_piece(c, row),
                Option::None => Vec::new(),
            };
            proof {
                assert(piece@ == piece_of(tv, cv[ci as int], row as int));
            }
            let ghost acc0 = acc@;
            if piece.len() > 0 {
                if acc.len() == 0 {
                    acc = piece;
                } else {
                    acc.push(' ');
                    push_all(&mut acc, &piece);
                    proof {
                        assert(acc@ =~= acc0 + seq![' '] + piece@);
                    }
                }
            }
            ci += 1;
        }
        r.push(string_from_chars(&acc));
        row += 1;
    }
    r
}

/// Extends the per-column text table with column `col` when absent: one
/// lowercase text per row for the column whose lowercased name is `col`.
pub open spec fn spec_ensure_col(
    cm: Seq<(Seq<char>, Seq<Seq<char>>)>,
    tv: Seq<(Seq<char>, Seq<CellVal>)>,
    col: Seq<char>,
    n: int,
) -> Seq<(Seq<char>, Seq<Seq<char>>)> {
    if assoc_lookup(cm, col) is Some {
        cm
    } else {
        cm.push((col, Seq::new(n as nat, |r: int| spec_col_text(tv, col, r))))
    }
}

fn colmap_has(cache: &Vec<(String, Vec<String>)>, col: &String) -> (r: bool)
    ensures
        r == (assoc_lookup(colmap_view(cache@), col@) is Some),
{
    let n = cache.len();
    let mut i: usize = 0;
    while i < n
        invariant
            n == cache@.len(),
            0 <= i <= n,
            forall|k: int| 0 <= k < i ==> colmap_view(cache@)[k].0 != col@,
        decreases n - i,
    {
        if crate::search::str_eq(&cache[i].0, col) {
            proof {
                crate::mask::lemma_assoc_first(colmap_view(cache@), col@, i as int);
            }
            return true;
        }
        i += 1;
    }
    proof {
        crate::mask::lemma_assoc_none(colmap_view(cache@), col@);
    }
    false
}

/// Ensures the per-column lowercase text vector for `col` exists in the
/// cache, building it once from the table when absent.
pub fn ensure_column_text_cache(
    column: &String,
    table: &Table,
    row_count: usize,
    cache: &mut Vec<(String, Vec<String>)>,
)
    ensures
        colmap_view(final(cache)@) == spec_ensure_col(
            colmap_view(old(cache)@),
            table@,
            column@,
            row_count as int,
        ),
{
    let ghost tv = table@;
    if colmap_has(cache, column) {
        return ;
    }
    let found = find_column_lower(table, column);
    let mut texts: Vec<String> = Vec::new();
    let mut row: usize = 0;
    while row < row_count
        invariant
            tv == table@,
            0 <= row <= row_count,
            texts@.len() == row,
            (match found {
                Option::Some(c) => find_col_lower(tv, column@) == Option::Some(
                    cells_view(c.cells@),
                ),
                Option::None => find_col_lower(tv, column@) == Option::<Seq<CellVal>>::None,
            }),
            forall|k: int|
                0 <= k < row ==> (#[trigger] texts@[k])@ == spec_col_text(tv, column@, k),
        decreases row_count - row,
    {
        let piece = match found {
            Option::Some(c) => cell_piece(c, row),
            Option::None => Vec::new(),
        };
        proof {
            assert(piece@ == spec_col_text(tv, column@, row as int));
        }
        texts.push(string_from_chars(&piece));
        row += 1;
    }
    let ghost before = colmap_view(cache@);
    cache.push((column.clone(), texts));
    proof {
        assert(strs_view(texts@) =~= Seq::new(row_count as nat, |r: int| spec_col_text(
            tv,
            column@,
            r,
        )));
        assert(colmap_view(cache@) =~= before.push((column@, strs_view(texts@))));
    }
}

/// The single-row per-column map over scope columns `names[..i]`, later
/// columns listed first so that a first-match lookup lets a later column
/// override an earlier one with the same lowercased name. Columns whose
/// search piece is empty contribute nothing.
pub open spec fn single_colmap(
    tv: Seq<(Seq<char>, Seq<CellVal>)>,
    names: Seq<Seq<char>>,
    i: int,
    row: int,
) -> Seq<(Seq<char>, Seq<Seq<char>>)>
    decreases i,
{
    if i <= 0 {
        Seq::empty()
    } else {
        let piece = piece_of(tv, names[i - 1], row);
        (if piece.len() > 0 {
            seq![(lower_of(names[i - 1]), seq![piece])]
        } else {
            Seq::<(Seq<char>, Seq<Seq<char>>)>::empty()
        }) + single_colmap(tv, names, i - 1, row)
    }
}

/// Like `single_colmap`, but every column contributes an entry, empty or not,
/// as the full-scan counting pass builds it.
pub open spec fn single_colmap_all(
    tv: Seq<(Seq<char>, Seq<CellVal>)>,
    names: Seq<Seq<char>>,
    i: int,
    row: int,
) -> Seq<(Seq<char>, Seq<Seq<char>>)>
    decreases i,
{
    if i <= 0 {
        Seq::empty()
    } else {
        seq![(lower_of(names[i - 1]), seq![piece_of(tv, names[i - 1], row)])] + single_colmap_all(
            tv,
            names,
            i - 1,
            row,
        )
    }
}

/// Builds the row text of one row together with its single-row per-column
/// text map (column names lowercased, one text per matching column).
pub fn build_row_search_text(column_names: &Vec<String>, table: &Table, row_idx: usize) -> (r: (
    String,
    Vec<(String, Vec<String>)>,
))
    ensures
        (r.0)@ == spec_row_text(table@, strs_view(column_names@), row_idx as int),
        colmap_view(r.1@) == single_colmap(
            table@,
            strs_view(column_names@),
            column_names@.len() as int,
            row_idx as int,
        ),
{
    let ghost tv = table@;
    let ghost nv = strs_view(column_names@);
    let nc = column_names.len();

    // Row text, walking the columns forward.
    let mut acc: Vec<char> = Vec::new();
    let mut ci: usize = 0;
    proof {
        assert(acc@ =~= Seq::<char>::empty());
    }
    while ci < nc
        invariant
            nc == column_names@.len(),
            tv == table@,
            nv == strs_view(column_names@),
            0 <= ci <= nc,
            row_text_from(tv, nv, ci as int, row_idx as int, acc@) == spec_row_text(
                tv,
                nv,
                row_idx as int,
            ),
        decreases nc - ci,
    {
        let piece = match find_column(table, &column_names[ci]) {
            Option::Some(c) => cell_piece(c, row_idx),
            Option::None => Vec::new(),
        };
        proof {
            assert(piece@ == piece_of(tv, nv[ci as int], row_idx as int));
        }
        let ghost acc0 = acc@;
        if piece.len() > 0 {
            if acc.len() == 0 {
                acc = piece;
            } else {
                acc.push(' ');
                push_all(&mut acc, &piece);
                proof {
                    assert(acc@ =~= acc0 + seq![' '] + piece@);
                }
            }
        }
        ci += 1;
    }
    let row_text = string_from_chars(&acc);

    // Single-row per-column map, walking the columns backward so that a later
    // column overrides an earlier one with the same lowercased name.
    let mut per_col: Vec<(String, Vec<String>)> = Vec::new();
    let mut i: usize = nc;
    proof {
        assert(colmap_view(per_col@) =~= Seq::<(Seq<char>, Seq<Seq<char>>)>::empty());
        assert(Seq::<(Seq<char>, Seq<Seq<char>>)>::empty() + single_colmap(
            tv,
            nv,
            nc as int,
            row_idx as int,
        ) =~= single_colmap(tv, nv, nc as int, row_idx as int));
    }
    while i > 0
        invariant
            nc == column_names@.len(),
            tv == table@,
            nv == strs_view(column_names@),
            0 <= i <= nc,
            colmap_view(per_col@) + single_colmap(tv, nv, i as int, row_idx as int)
                == single_colmap(tv, nv, nc as int, row_idx as int),
        decreases i,
    {
        i -= 1;
        let piece = match find_column(table, &column_names[i]) {
            Option::Some(c) => cell_piece(c, row_idx),
            Option::None => Vec::new(),
        };
        proof {
            assert(piece@ == piece_of(tv, nv[i as int], row_idx as int));
        }
        let ghost before = colmap_view(per_col@);
        if piece.len() > 0 {
            let name_chars = chars_of(column_names[i].as_str());
            let lowered = lowercase_chars(&name_chars);
            let key = string_from_chars(&lowered);
            let mut one: Vec<String> = Vec::new();
            one.push(string_from_chars(&piece));
            proof {
                assert(strs_view(one@) =~= seq![piece@]);
            }
            per_col.push((key, one));
            proof {
                assert(colmap_view(per_col@) =~= before.push((lower_of(nv[i as int]), seq![
                    piece@,
                ])));
                assert(colmap_view(per_col@) + single_colmap(tv, nv, i as int, row_idx as int)
                    =~= before + single_colmap(tv, nv, i as int + 1, row_idx as int));
            }
        } else {
            proof {
                assert(Seq::<(Seq<char>, Seq<Seq<char>>)>::empty() + single_colmap(
                    tv,
                    nv,
                    i as int,
                    row_idx as int,
                ) =~= single_colmap(tv, nv, i as int, row_idx as int));
            }
        }
    }
    proof {
        assert(colmap_view(per_col@) + Seq::<(Seq<char>, Seq<Seq<char>>)>::empty() =~= colmap_view(
            per_col@,
        ));
    }
    (row_text, per_col)
}

/// The `(name, cell)` record of one row over the given column names, in
/// order; names that match no column are skipped.
pub open spec fn record_from(
    tv: Seq<(Seq<char>, Seq<CellVal>)>,
    names: Seq<Seq<char>>,
    k: int,
    row: int,
) -> Seq<(Seq<char>, CellVal)>
    decreases names.len() - k,
{
    if !(0 <= k < names.len()) {
        Seq::empty()
    } else {
        let rest = record_from(tv, names, k + 1, row);
        match find_col(tv, names[k]) {
            Option::Some(cells) => {
                if 0 <= row < cells.len() {
                    seq![(names[k], cells[row])] + rest
                } else {
                    rest
                }
            },
            Option::None => rest,
        }
    }
}

/// The view of a data record.
pub open spec fn pairs_view(s: Seq<(String, Cell)>) -> Seq<(Seq<char>, CellVal)> {
    Seq::new(s.len(), |i: int| (s[i].0@, s[i].1@))
}

/// Collects one row's data as `(column, cell)` pairs over the given columns.
pub fn collect_row_record(table: &Table, column_names: &Vec<String>, row_idx: usize) -> (r: Vec<
    (String, Cell),
>)
    ensures
        pairs_view(r@) == record_from(table@, strs_view(column_names@), 0, row_idx as int),
{
    let ghost tv = table@;
    let ghost nv = strs_view(column_names@);
    let nc = column_names.len();
    let mut out: Vec<(String, Cell)> = Vec::new();
    let mut k: usize = 0;
    proof {
        assert(pairs_view(out@) =~= Seq::<(Seq<char>, CellVal)>::empty());
        assert(Seq::<(Seq<char>, CellVal)>::empty() + record_from(tv, nv, 0, row_idx as int)
            =~= record_from(tv, nv, 0, row_idx as int));
    }
    while k < nc
        invariant
            nc == column_names@.len(),
            tv == table@,
            nv == strs_view(column_names@),
            0 <= k <= nc,
            pairs_view(out@) + record_from(tv, nv, k as int, row_idx as int) == record_from(
                tv,
                nv,
                0,
                row_idx as int,
            ),
        decreases nc - k,
    {
        let ghost before = pairs_view(out@);
        match find_column(table, &column_names[k]) {
            Option::Some(c) => {
                if row_idx < c.cells.len() {
                    out.push((column_names[k].clone(), clone_cell(&c.cells[row_idx])));
                    proof {
                        assert(pairs_view(out@) =~= before.push((
                            nv[k as int],
                            cells_view(c.cells@)[row_idx as int],
                        )));
                        assert(pairs_view(out@) + record_from(tv, nv, k as int + 1, row_idx as int)
                            =~= before + record_from(tv, nv, k as int, row_idx as int));
                    }
                } else {
                    proof {
                        assert(record_from(tv, nv, k as int, row_idx as int) == record_from(
                            tv,
                            nv,
                            k as int + 1,
                            row_idx as int,
                        ));
                    }
                }
            },
            Option::None => {
                proof {
                    assert(record_from(tv, nv, k as int, row_idx as int) == record_from(
                        tv,
                        nv,
                        k as int + 1,
                        row_idx as int,
                    ));
                }
            },
        }
        k += 1;
    }
    proof {
        assert(pairs_view(out@) + Seq::<(Seq<char>, CellVal)>::empty() =~= pairs_view(out@));
    }
    out
}

/// The non-synthetic column names, in table order.
pub open spec fn names_from(tv: Seq<(Seq<char>, Seq<CellVal>)>, i: int) -> Seq<Seq<char>>
    decreases tv.len() - i,
{
    if !(0 <= i < tv.len()) {
        Seq::empty()
    } else if tv[i].0 == rowid_chars() {
        names_from(tv, i + 1)
    } else {
        seq![tv[i].0] + names_from(tv, i + 1)
    }
}

/// Lists the non-synthetic column names of a table, in order.
pub fn visible_columns(table: &Table) -> (r: Vec<String>)
    ensures
        strs_view(r@) == names_from(table@, 0),
{
    let ghost tv = table@;
    let n = table.columns.len();
    let rowid = rowid_name();
    let rowid_cs = chars_of(rowid.as_str());
    let mut out: Vec<String> = Vec::new();
    let mut i: usize = 0;
    proof {
        assert(strs_view(out@) =~= Seq::<Seq<char>>::empty());
        assert(Seq::<Seq<char>>::empty() + names_from(tv, 0) =~= names_from(tv, 0));
    }
    while i < n
        invariant
            n == table.columns@.len(),
            tv == table@,
            rowid_cs@ == rowid_chars(),
            0 <= i <= n,
            strs_view(out@) + names_from(tv, i as int) == names_from(tv, 0),
        decreases n - i,
    {
        let ghost before = strs_view(out@);
        let name_cs = chars_of(table.columns[i].name.as_str());
        if !crate::text::chars_eq(&name_cs, &rowid_cs) {
            out.push(table.columns[i].name.clone());
            proof {
                assert(strs_view(out@) =~= before.push(tv[i as int].0));
                assert(strs_view(out@) + names_from(tv, i as int + 1) =~= before + names_from(
                    tv,
                    i as int,
                ));
            }
        } else {
            proof {
                assert(names_from(tv, i as int) == names_from(tv, i as int + 1));
            }
        }
        i += 1;
    }
    proof {
        assert(strs_view(out@) + Seq::<Seq<char>>::empty() =~= strs_view(out@));
    }
    out
}

/// Builds the single-row per-column map of `row_idx` over the given columns,
/// one entry per column whether or not its text is empty, later columns
/// first.
pub fn build_row_colmap_all(column_names: &Vec<String>, table: &Table, row_idx: usize) -> (r: Vec<
    (String, Vec<String>),
>)
    ensures
        colmap_view(r@) == single_colmap_all(
            table@,
            strs_view(column_names@),
            column_names@.len() as int,
            row_idx as int,
        ),
{
    let ghost tv = table@;
    let ghost nv = strs_view(column_names@);
    let nc = column_names.len();
    let mut per_col: Vec<(String, Vec<String>)> = Vec::new();
    let mut i: usize = nc;
    proof {
        assert(colmap_view(per_col@) =~= Seq::<(Seq<char>, Seq<Seq<char>>)>::empty());
        assert(Seq::<(Seq<char>, Seq<Seq<char>>)>::empty() + single_colmap_all(
            tv,
            nv,
            nc as int,
            row_idx as int,
        ) =~= single_colmap_all(tv, nv, nc as int, row_idx as int));
    }
    while i > 0
        invariant
            nc == column_names@.len(),
            tv == table@,
            nv == strs_view(column_names@),
            0 <= i <= nc,
            colmap_view(per_col@) + single_colmap_all(tv, nv, i as int, row_idx as int)
                == single_colmap_all(tv, nv, nc as int, row_idx as int),
        decreases i,
    {
        i -= 1;
        let piece = match find_column(table, &column_names[i]) {
            Option::Some(c) => cell_piece(c, row_idx),
            Option::None => Vec::new(),
        };
        proof {
            assert(piece@ == piece_of(tv, nv[i as int], row_idx as int));
        }
        let ghost before = colmap_view(per_col@);
        let name_chars = chars_of(column_names[i].as_str());
        let lowered = lowercase_chars(&name_chars);
        let key = string_from_chars(&lowered);
        let mut one: Vec<String> = Vec::new();
        one.push(string_from_chars(&piece));
        proof {
            assert(strs_view(one@) =~= seq![piece@]);
        }
        per_col.push((key, one));
        proof {
            assert(colmap_view(per_col@) =~= before.push((lower_of(nv[i as int]), seq![piece@])));
            assert(colmap_view(per_col@) + single_colmap_all(tv, nv, i as int, row_idx as int)
                =~= before + single_colmap_all(tv, nv, i as int + 1, row_idx as int));
        }
    }
    proof {
        assert(colmap_view(per_col@) + Seq::<(Seq<char>, Seq<Seq<char>>)>::empty() =~= colmap_view(
            per_col@,
        ));
    }
    per_col
}

/// The display width of column `name` over rows `0..row`: the wider of the
/// header and every cell's display length.
pub open spec fn col_max_chars(
    tv: Seq<(Seq<char>, Seq<CellVal>)>,
    name: Seq<char>,
    row: int,
) -> int
    decreases row,
{
    if row <= 0 {
        name.len() as int
    } else {
        let prev = col_max_chars(tv, name, row - 1);
        let here = match find_col(tv, name) {
            Option::Some(cells) => {
                if row - 1 < cells.len() {
                    crate::value::spec_display_length(cells[row - 1]) as int
                } else {
                    0
                }
            },
            Option::None => 0,
        };
        if here > prev {
            here
        } else {
            prev
        }
    }
}

/// Computes the display-width metric of every visible column: the maximum of
/// the header's character count and each cell's display length.
pub fn compute_column_max_chars(table: &Table) -> (r: Vec<(String, usize)>)
    ensures
        r@.len() == names_from(table@, 0).len(),
        forall|k: int|
            0 <= k < r@.len() ==> (#[trigger] r@[k]).0@ == names_from(table@, 0)[k]
                && r@[k].1 as int == col_max_chars(
                table@,
                names_from(table@, 0)[k],
                table.row_count as int,
            ),
{
    let ghost tv = table@;
    let ghost nv = names_from(tv, 0);
    let names = visible_columns(table);
    let n = table.row_count;
    let nc = names.len();
    let mut out: Vec<(String, usize)> = Vec::new();
    let mut k: usize = 0;
    while k < nc
        invariant
            nc == names@.len(),
            tv == table@,
            nv == names_from(tv, 0),
            strs_view(names@) == nv,
            n == table.row_count,
            0 <= k <= nc,
            out@.len() == k,
            forall|m: int|
                0 <= m < k ==> (#[trigger] out@[m]).0@ == nv[m] && out@[m].1 as int
                    == col_max_chars(tv, nv[m], n as int),
        decreases nc - k,
    {
        let name = &names[k];
        let mut best: usize = name.as_str().unicode_len();
        let found = find_column(table, name);
        let mut row: usize = 0;
        while row < n
            invariant
                tv == table@,
                n == table.row_count,
                name@ == nv[k as int],
                (match found {
                    Option::Some(c) => find_col(tv, name@) == Option::Some(cells_view(c.cells@)),
                    Option::None => find_col(tv, name@) == Option::<Seq<CellVal>>::None,
                }),
                0 <= row <= n,
                best as int == col_max_chars(tv, nv[k as int], row as int),
            decreases n - row,
        {
            let here: usize = match found {
                Option::Some(c) => {
                    if row < c.cells.len() {
                        crate::value::value_display_length(&c.cells[row])
                    } else {
                        0
                    }
                },
                Option::None => 0,
            };
            if here > best {
                best = here;
            }
            row += 1;
        }
        out.push((name.clone(), best));
        k += 1;
    }
    out
}

/// One row as the shell sees it: position, visible data, final flag, memo.
#[derive(Debug)]
pub struct ProjectRow {
    pub row_index: usize,
    pub data: Vec<(String, Cell)>,
    pub flag: String,
    pub memo: Option<String>,
}

/// The view of a row: position, data pairs, flag text, memo text.
pub open spec fn row_view(r: ProjectRow) -> (int, Seq<(Seq<char>, CellVal)>, Seq<char>, Option<
    Seq<char>,
>) {
    (r.row_index as int, pairs_view(r.data@), r.flag@, crate::search::opt_chars(r.memo))
}

/// The views of a row vector.
pub open spec fn rows_view(s: Seq<ProjectRow>) -> Seq<
    (int, Seq<(Seq<char>, CellVal)>, Seq<char>, Option<Seq<char>>),
> {
    Seq::new(s.len(), |i: int| row_view(s[i]))
}

} // verus!
