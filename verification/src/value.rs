//! The cell model: the plain values the query engine reads from a table
//! column, and their search-text and display-width renderings.
//!
//! Floating-point, date/time, list and other structured values are carried as
//! their rendered text (`Cell::Text`), produced at the boundary that loads the
//! table; the engine only ever reads the rendered form.

use vstd::prelude::*;

use crate::text::{dec_chars, i64_to_chars, signed_dec_chars, string_from_chars, u64_to_chars};

verus! {

/// A single table cell as the engine sees it.
#[derive(Debug, Clone)]
pub enum Cell {
    Null,
    Bool(bool),
    Int(i64),
    UInt(u64),
    Text(String),
}

/// The mathematical value of a cell.
pub enum CellVal {
    Null,
    Bool(bool),
    Int(int),
    UInt(int),
    Text(Seq<char>),
}

impl View for Cell {
    type V = CellVal;

    open spec fn view(&self) -> CellVal {
        match self {
            Cell::Null => CellVal::Null,
            Cell::Bool(b) => CellVal::Bool(*b),
            Cell::Int(v) => CellVal::Int(*v as int),
            Cell::UInt(v) => CellVal::UInt(*v as int),
            Cell::Text(s) => CellVal::Text(s@),
        }
    }
}

/// The characters of `true` / `false`.
pub open spec fn bool_chars(b: bool) -> Seq<char> {
    if b {
        seq!['t', 'r', 'u', 'e']
    } else {
        seq!['f', 'a', 'l', 's', 'e']
    }
}

/// The search text of a cell: none for null, canonical text for booleans and
/// numbers, the text itself for text cells.
pub open spec fn cell_search_chars(c: CellVal) -> Option<Seq<char>> {
    match c {
        CellVal::Null => Option::None,
        CellVal::Bool(b) => Option::Some(bool_chars(b)),
        CellVal::Int(v) => Option::Some(signed_dec_chars(v)),
        CellVal::UInt(v) => Option::Some(dec_chars(v)),
        CellVal::Text(s) => Option::Some(s),
    }
}

/// The display width of a cell in characters: 0 for null, the length of the
/// canonical text for booleans and numbers, the character count for text.
pub open spec fn spec_display_length(c: CellVal) -> nat {
    match c {
        CellVal::Null => 0,
        CellVal::Bool(b) => bool_chars(b).len(),
        CellVal::Int(v) => signed_dec_chars(v).len(),
        CellVal::UInt(v) => dec_chars(v).len(),
        CellVal::Text(s) => s.len(),
    }
}

fn bool_text(b: bool) -> (r: String)
    ensures
        r@ == bool_chars(b),
{
    if b {
        proof {
            reveal_strlit("true");
        }
        let r = String::from_str("true");
        assert(r@ =~= bool_chars(true));
        r
    } else {
        proof {
            reveal_strlit("false");
        }
        let r = String::from_str("false");
        assert(r@ =~= bool_chars(false));
        r
    }
}

/// Renders a cell for containment search; `None` means the cell contributes
/// nothing.
pub fn value_to_search_string(c: &Cell) -> (r: Option<String>)
    ensures
        match r {
            Option::Some(s) => cell_search_chars(c@) == Option::Some(s@),
            Option::None => cell_search_chars(c@) == Option::<Seq<char>>::None,
        },
{
    match c {
        Cell::Null => Option::None,
        Cell::Bool(b) => Option::Some(bool_text(*b)),
        Cell::Int(v) => {
            let cs = i64_to_chars(*v);
            Option::Some(string_from_chars(&cs))
        },
        Cell::UInt(v) => {
            let cs = u64_to_chars(*v);
            Option::Some(string_from_chars(&cs))
        },
        Cell::Text(s) => Option::Some(s.clone()),
    }
}

/// The display width of a cell in characters.
pub fn value_display_length(c: &Cell) -> (r: usize)
    ensures
        r == spec_display_length(c@),
{
    match c {
        Cell::Null => 0,
        Cell::Bool(b) => if *b {
            4
        } else {
            5
        },
        Cell::Int(v) => {
            let cs = i64_to_chars(*v);
            cs.len()
        },
        Cell::UInt(v) => {
            let cs = u64_to_chars(*v);
            cs.len()
        },
        Cell::Text(s) => s.as_str().unicode_len(),
    }
}

/// Copies a cell, preserving its value.
pub fn clone_cell(c: &Cell) -> (r: Cell)
    ensures
        r@ == c@,
{
    match c {
        Cell::Null => Cell::Null,
        Cell::Bool(b) => Cell::Bool(*b),
        Cell::Int(v) => Cell::Int(*v),
        Cell::UInt(v) => Cell::UInt(*v),
        Cell::Text(s) => Cell::Text(s.clone()),
    }
}

} // verus!
