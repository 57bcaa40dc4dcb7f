//! What is known of a column: whether every data row fills it, whether it
//! holds one value throughout, and how many of its cells are not empty.

use crate::sheets::{cell_text, spec_cell_at, spec_cell_text, Cell, ColumnInfo};
use crate::text::{
    get_words, is_blank, lowercase, spec_is_blank, spec_lowercase, spec_space_join, spec_texts,
    spec_trim, spec_words, trim,
};
use itertools::Itertools;
use vstd::prelude::*;

verus! {

/// Calls `Itertools::join` of itertools with one space for the separator: the
/// first text, and then a space and the next text for each that follows.
#[verifier::external_body]
fn join_words(words: &Vec<String>) -> (r: String)
    ensures
        r@ == spec_space_join(spec_texts(words@)).flatten(),
{
    words.iter().join(" ")
}

/// Calls `Itertools::unique` of itertools and counts what it lets through:
/// each text once, however often it occurs.
#[verifier::external_body]
fn count_unique(items: &Vec<String>) -> (r: usize)
    ensures
        r == spec_texts(items@).to_set().len(),
{
    items.iter().unique().count()
}

/// Whether a cell is filled: it has a text, and the text is more than
/// whitespace. A number counts by the text that stands for it; an empty
/// cell, and a cell of a kind without text, is not filled.
pub open spec fn spec_filled(c: Cell) -> bool {
    spec_cell_text(c) is Some && !spec_is_blank(spec_cell_text(c)->0)
}

/// The form in which the values of a column are told apart: the words of
/// the trimmed text with single spaces between them, in lower case. A cell
/// that has no text counts as the empty text.
pub open spec fn spec_rendering(c: Cell) -> Seq<char> {
    match spec_cell_text(c) {
        Some(t) => spec_lowercase(spec_space_join(spec_words(spec_trim(t))).flatten()),
        None => Seq::empty(),
    }
}

/// The cells of column `col` in the rows at `places`, top to bottom.
pub open spec fn spec_column(rows: Seq<Vec<Cell>>, places: Seq<usize>, col: int) -> Seq<Cell> {
    Seq::new(places.len(), |k: int| spec_cell_at(rows[places[k] as int]@, col))
}

/// Whether every one of `cells` is filled.
pub open spec fn spec_always_filled(cells: Seq<Cell>) -> bool {
    forall|k: int| 0 <= k < cells.len() ==> spec_filled(#[trigger] cells[k])
}

/// Whether `cells` hold one value and no other.
pub open spec fn spec_single_valued(cells: Seq<Cell>) -> bool {
    cells.map_values(|c: Cell| spec_rendering(c)).to_set().len() == 1
}

/// How many of `cells` are not empty.
pub open spec fn spec_count_not_empty(cells: Seq<Cell>) -> nat
    decreases cells.len(),
{
    if cells.len() == 0 {
        0
    } else {
        spec_count_not_empty(cells.drop_last()) + if cells.last() is Empty {
            0nat
        } else {
            1nat
        }
    }
}

/// What is known of the column at `index` whose cells in the data rows are
/// `cells`. The count stops at the largest number that 32 bits hold.
pub open spec fn spec_column_info(cells: Seq<Cell>, index: u16) -> ColumnInfo {
    ColumnInfo {
        index: index,
        always_filled: spec_always_filled(cells),
        single_valued: spec_single_valued(cells),
        non_empty_count: if spec_count_not_empty(cells) <= u32::MAX {
            spec_count_not_empty(cells) as u32
        } else {
            u32::MAX
        },
    }
}

/// The form in which the values of a column are told apart.
pub fn rendering(c: &Cell) -> (r: String)
    ensures
        r@ == spec_rendering(*c),
{
    match cell_text(c) {
        Some(t) => {
            let trimmed = trim(t.as_str());
            let words = get_words(trimmed.as_str());
            let joined = join_words(&words);
            lowercase(joined.as_str())
        },
        None => String::new(),
    }
}

/// Whether a cell is filled.
pub fn filled(c: &Cell) -> (r: bool)
    ensures
        r == spec_filled(*c),
{
    match cell_text(c) {
        Some(t) => !is_blank(t.as_str()),
        None => false,
    }
}

/// What is known of column `index` in the rows of `rows` at `places`.
pub fn column_info(rows: &Vec<Vec<Cell>>, places: &[usize], index: u16) -> (info: ColumnInfo)
    requires
        forall|k: int| 0 <= k < places@.len() ==> (#[trigger] places@[k]) < rows.len(),
    ensures
        info == spec_column_info(spec_column(rows@, places@, index as int), index),
{
    let ghost cells = spec_column(rows@, places@, index as int);
    let empty = Cell::Empty;
    let mut always_filled = true;
    let mut count: usize = 0;
    let mut renderings: Vec<String> = Vec::new();
    let mut k: usize = 0;
    assert(cells.take(0) == Seq::<Cell>::empty());
    while k < places.len()
        invariant
            k <= places.len(),
            cells == spec_column(rows@, places@, index as int),
            forall|k: int| 0 <= k < places@.len() ==> (#[trigger] places@[k]) < rows.len(),
            empty == Cell::Empty,
            always_filled == spec_always_filled(cells.take(k as int)),
            count == spec_count_not_empty(cells.take(k as int)),
            count <= k,
            renderings.len() == k,
            cells.len() == places.len(),
            spec_texts(renderings@) == cells.take(k as int).map_values(
                |c: Cell| spec_rendering(c),
            ),
        decreases places.len() - k,
    {
        let row = &rows[places[k]];
        let cell: &Cell = if (index as usize) < row.len() {
            &row[index as usize]
        } else {
            &empty
        };
        assert(*cell == cells[k as int]);
        let ghost before = renderings@;
        let ghost head = cells.take(k as int);
        let ghost next = cells.take(k + 1);
        assert(next.drop_last() == head);
        assert(next.last() == cells[k as int]);
        if !filled(cell) {
            always_filled = false;
        }
        proof {
            if spec_always_filled(next) {
                assert forall|j: int| 0 <= j < head.len() implies spec_filled(
                    #[trigger] head[j],
                ) by {
                    assert(head[j] == next[j]);
                }
                assert(spec_filled(next[k as int]));
            }
            if spec_always_filled(head) && spec_filled(*cell) {
                assert forall|j: int| 0 <= j < next.len() implies spec_filled(
                    #[trigger] next[j],
                ) by {
                    if j < k {
                        assert(next[j] == head[j]);
                    }
                }
            }
        }
        if !matches!(cell, Cell::Empty) {
            count += 1;
        }
        renderings.push(rendering(cell));
        proof {
            let wanted = next.map_values(|c: Cell| spec_rendering(c));
            let had = head.map_values(|c: Cell| spec_rendering(c));
            assert(spec_texts(before) == had);
            assert forall|j: int| 0 <= j < wanted.len() implies spec_texts(renderings@)[j]
                == wanted[j] by {
                if j < k {
                    assert(spec_texts(renderings@)[j] == spec_texts(before)[j]);
                    assert(had[j] == spec_rendering(head[j]));
                    assert(head[j] == next[j]);
                }
            }
            assert(spec_texts(renderings@) =~= wanted);
        }
        k += 1;
    }
    assert(cells.take(k as int) == cells);
    let single_valued = count_unique(&renderings) == 1;
    let non_empty_count: u32 = if count <= u32::MAX as usize {
        count as u32
    } else {
        u32::MAX
    };
    ColumnInfo { index, always_filled, single_valued, non_empty_count }
}

} // verus!
