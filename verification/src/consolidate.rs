//! The union of the sheets of a group of files: for each sheet name one
//! table whose columns are the headers of the sheet, filled file after file
//! with the rows that carry data; the rows that carry none are set apart.

use crate::headers::{
    column_place, sheet_place, spec_column_place, spec_file_place, spec_sheet_place, Column,
    ColumnView, FileColumns, Headers, HeadersView, SheetHeaders, SheetHeadersView,
};
use crate::sheets::{
    cell_text, lemma_usable_rows, sheet_named, spec_cell_at, spec_cell_text, spec_sheet_named,
    spec_usable_rows, spec_vacio, usable_rows, vacio, Book, Cell,
};
use crate::text::{
    header_has_words, normal_words, spec_normal, spec_starts_with, spec_texts, starts_with,
    to_chars,
};
use vstd::prelude::*;
use vstd::slice::slice_subrange;

verus! {

/// Whether the cell of `row` under the header cell at `col` carries no
/// data, or does not count: a header cell counts if it has a text and the
/// file has a column under that text.
pub open spec fn spec_void_at(
    row: Seq<Cell>,
    header: Seq<Cell>,
    columns: Seq<ColumnView>,
    col: int,
) -> bool {
    match spec_cell_text(header[col]) {
        Some(name) => {
            let at = spec_column_place(columns, name);
            0 <= at < columns.len() ==> spec_vacio(spec_cell_at(row, col), columns[at].info)
        },
        None => true,
    }
}

/// Whether a row is to be set apart: every cell of it that stands under a
/// header that counts carries no data.
pub open spec fn spec_discardable(row: Seq<Cell>, header: Seq<Cell>, columns: Seq<ColumnView>) -> bool {
    forall|col: int| 0 <= col < header.len() ==> spec_void_at(row, header, columns, col)
}

/// Whether a row is to be set apart, given the header row of its sheet and
/// the columns of its file.
pub fn discardable(row: &Vec<Cell>, header: &Vec<Cell>, columns: &Vec<Column>) -> (r: bool)
    ensures
        r == spec_discardable(row@, header@, columns@.map_values(|c: Column| c@)),
{
    let ghost views = columns@.map_values(|c: Column| c@);
    let empty = Cell::Empty;
    let mut col: usize = 0;
    while col < header.len()
        invariant
            col <= header.len(),
            empty == Cell::Empty,
            views == columns@.map_values(|c: Column| c@),
            forall|k: int| 0 <= k < col ==> spec_void_at(row@, header@, views, k),
        decreases header.len() - col,
    {
        match cell_text(&header[col]) {
            Some(name) => {
                let at = column_place(columns, name.as_str());
                if at < columns.len() {
                    let cell: &Cell = if col < row.len() {
                        &row[col]
                    } else {
                        &empty
                    };
                    assert(views[at as int].info == columns@[at as int].info);
                    if !vacio(cell, &columns[at].info) {
                        assert(!spec_void_at(row@, header@, views, col as int));
                        return false;
                    }
                }
            },
            None => {},
        }
        col += 1;
    }
    true
}

/// The place of the first of `columns` from `from` on whose header is
/// `header` once case and spacing are set aside, if there is one.
pub open spec fn spec_matching_column(columns: Seq<ColumnView>, header: Seq<char>, from: int) -> Option<
    int,
>
    decreases columns.len() - from,
{
    if from < 0 || from >= columns.len() {
        None
    } else if spec_normal(columns[from].name) == spec_normal(header) {
        Some(from)
    } else {
        spec_matching_column(columns, header, from + 1)
    }
}

/// The place of the first of `columns` whose header is `header` once case
/// and spacing are set aside, if there is one.
pub fn matching_column(columns: &Vec<Column>, header: &str) -> (r: Option<usize>)
    ensures
        match r {
            Some(k) => k < columns.len() && spec_matching_column(
                columns@.map_values(|c: Column| c@),
                header@,
                0,
            ) == Some(k as int),
            None => spec_matching_column(columns@.map_values(|c: Column| c@), header@, 0) is None,
        },
{
    let ghost views = columns@.map_values(|c: Column| c@);
    let wanted = normal_words(header);
    let mut k: usize = 0;
    while k < columns.len()
        invariant
            k <= columns.len(),
            views == columns@.map_values(|c: Column| c@),
            spec_texts(wanted@) == spec_normal(header@),
            spec_matching_column(views, header@, 0) == spec_matching_column(views, header@, k as int),
        decreases columns.len() - k,
    {
        assert(views[k as int].name == columns@[k as int].name@);
        if header_has_words(&wanted, columns[k].name.as_str()) {
            return Some(k);
        }
        k += 1;
    }
    None
}

/// For each of the headers `canonical` the place in a row of the file's
/// column that goes under it, if the file has one.
pub open spec fn spec_sources(canonical: Seq<Seq<char>>, columns: Seq<ColumnView>) -> Seq<
    Option<int>,
> {
    Seq::new(
        canonical.len(),
        |c: int|
            match spec_matching_column(columns, canonical[c], 0) {
                Some(k) => Some(columns[k].info.index as int),
                None => None,
            },
    )
}

/// Places as numbers without bound.
pub open spec fn spec_as_places(sources: Seq<Option<usize>>) -> Seq<Option<int>> {
    Seq::new(
        sources.len(),
        |c: int|
            match sources[c] {
                Some(index) => Some(index as int),
                None => None,
            },
    )
}

/// A row as it goes into the table: under each header the cell of the
/// column that goes under it, and an empty cell where the file has none.
pub open spec fn spec_output_row(row: Seq<Cell>, sources: Seq<Option<int>>) -> Seq<Cell> {
    Seq::new(
        sources.len(),
        |c: int|
            match sources[c] {
                Some(index) => spec_cell_at(row, index),
                None => Cell::Empty,
            },
    )
}

/// For each of the headers `canonical` the place in a row of the file's
/// column that goes under it, if the file has one.
pub fn sources(canonical: &Vec<String>, columns: &Vec<Column>) -> (r: Vec<Option<usize>>)
    ensures
        spec_as_places(r@) == spec_sources(
            spec_texts(canonical@),
            columns@.map_values(|c: Column| c@),
        ),
{
    let ghost views = columns@.map_values(|c: Column| c@);
    let ghost wanted = spec_sources(spec_texts(canonical@), views);
    let mut r: Vec<Option<usize>> = Vec::new();
    let mut c: usize = 0;
    while c < canonical.len()
        invariant
            c <= canonical.len(),
            r@.len() == c,
            views == columns@.map_values(|c: Column| c@),
            wanted == spec_sources(spec_texts(canonical@), views),
            forall|k: int| 0 <= k < c ==> spec_as_places(r@)[k] == wanted[k],
        decreases canonical.len() - c,
    {
        assert(spec_texts(canonical@)[c as int] == canonical@[c as int]@);
        let ghost before = r@;
        match matching_column(columns, canonical[c].as_str()) {
            Some(k) => {
                assert(views[k as int].info == columns@[k as int].info);
                r.push(Some(columns[k].info.index as usize));
            },
            None => {
                r.push(None);
            },
        }
        assert forall|k: int| 0 <= k < c + 1 implies spec_as_places(r@)[k] == wanted[k] by {
            if k < c {
                assert(spec_as_places(before)[k] == wanted[k]);
                assert(r@[k] == before[k]);
            }
        }
        c += 1;
    }
    assert(spec_as_places(r@) =~= wanted);
    r
}

/// A row as it goes into the table.
pub fn output_row(row: &Vec<Cell>, sources: &Vec<Option<usize>>) -> (r: Vec<Cell>)
    ensures
        r@ == spec_output_row(row@, spec_as_places(sources@)),
{
    let ghost wanted = spec_output_row(row@, spec_as_places(sources@));
    let mut r: Vec<Cell> = Vec::new();
    let mut c: usize = 0;
    while c < sources.len()
        invariant
            c <= sources.len(),
            r@.len() == c,
            wanted == spec_output_row(row@, spec_as_places(sources@)),
            forall|k: int| 0 <= k < c ==> r@[k] == wanted[k],
        decreases sources.len() - c,
    {
        let cell = match sources[c] {
            Some(index) => if index < row.len() {
                row[index].clone()
            } else {
                Cell::Empty
            },
            None => Cell::Empty,
        };
        assert(spec_as_places(sources@)[c as int] == match sources@[c as int] {
            Some(index) => Some(index as int),
            None => None,
        });
        assert(cell == wanted[c as int]);
        r.push(cell);
        c += 1;
    }
    assert(r@ =~= wanted);
    r
}

/// A copy of a row.
pub fn copy_row(row: &Vec<Cell>) -> (r: Vec<Cell>)
    ensures
        r@ == row@,
{
    let mut r: Vec<Cell> = Vec::new();
    let mut c: usize = 0;
    while c < row.len()
        invariant
            c <= row.len(),
            r@ == row@.take(c as int),
        decreases row.len() - c,
    {
        r.push(row[c].clone());
        assert(row@.take(c + 1) == row@.take(c as int).push(row@[c as int]));
        c += 1;
    }
    assert(row@.take(c as int) == row@);
    r
}

/// Of the first `n` of the data rows at `data`, those that carry data, each
/// as it goes into the table.
pub open spec fn spec_kept(
    rows: Seq<Vec<Cell>>,
    data: Seq<usize>,
    header: Seq<Cell>,
    columns: Seq<ColumnView>,
    sources: Seq<Option<int>>,
    n: nat,
) -> Seq<Seq<Cell>>
    decreases n,
{
    if n == 0 {
        Seq::empty()
    } else {
        let before = spec_kept(rows, data, header, columns, sources, (n - 1) as nat);
        let row = rows[data[n - 1] as int]@;
        if spec_discardable(row, header, columns) {
            before
        } else {
            before.push(spec_output_row(row, sources))
        }
    }
}

/// Of the first `n` of the data rows at `data`, those that are set apart,
/// as they are.
pub open spec fn spec_set_apart(
    rows: Seq<Vec<Cell>>,
    data: Seq<usize>,
    header: Seq<Cell>,
    columns: Seq<ColumnView>,
    n: nat,
) -> Seq<Seq<Cell>>
    decreases n,
{
    if n == 0 {
        Seq::empty()
    } else {
        let before = spec_set_apart(rows, data, header, columns, (n - 1) as nat);
        let row = rows[data[n - 1] as int]@;
        if spec_discardable(row, header, columns) {
            before.push(row)
        } else {
            before
        }
    }
}

/// Rows of a table, and rows set apart.
pub ghost struct TableView {
    pub rows: Seq<Seq<Cell>>,
    pub set_apart: Seq<Seq<Cell>>,
}

/// What the rows of one sheet of one file give: nothing where no row
/// counts; else the data rows that carry data, each as it goes into the
/// table, and the data rows that are set apart. A file all of whose data
/// rows are set apart gives no row to the table, and a file that has none of
/// the columns of the table gives a row of empty cells for each data row
/// that carries data.
pub open spec fn spec_block(
    rows: Seq<Vec<Cell>>,
    canonical: Seq<Seq<char>>,
    columns: Seq<ColumnView>,
) -> TableView {
    let places = spec_usable_rows(rows, rows.len());
    if places.len() == 0 {
        TableView { rows: Seq::empty(), set_apart: Seq::empty() }
    } else {
        let header = rows[places[0] as int]@;
        let data = places.skip(1);
        TableView {
            rows: spec_kept(
                rows,
                data,
                header,
                columns,
                spec_sources(canonical, columns),
                data.len(),
            ),
            set_apart: spec_set_apart(rows, data, header, columns, data.len()),
        }
    }
}

/// Of the first `n` data rows each is either kept or set apart: the rows
/// kept and the rows set apart are `n` together. Where all of them are to be
/// set apart none is kept, and where none is, all are kept.
pub proof fn lemma_kept_and_set_apart(
    rows: Seq<Vec<Cell>>,
    data: Seq<usize>,
    header: Seq<Cell>,
    columns: Seq<ColumnView>,
    sources: Seq<Option<int>>,
    n: nat,
)
    requires
        n <= data.len(),
    ensures
        spec_kept(rows, data, header, columns, sources, n).len() + spec_set_apart(
            rows,
            data,
            header,
            columns,
            n,
        ).len() == n,
        (forall|k: int|
            0 <= k < n ==> spec_discardable(rows[#[trigger] data[k] as int]@, header, columns))
            ==> spec_kept(rows, data, header, columns, sources, n).len() == 0,
        (forall|k: int|
            0 <= k < n ==> !spec_discardable(rows[#[trigger] data[k] as int]@, header, columns))
            ==> spec_set_apart(rows, data, header, columns, n).len() == 0,
    decreases n,
{
    if n > 0 {
        lemma_kept_and_set_apart(rows, data, header, columns, sources, (n - 1) as nat);
    }
}

/// A file all of whose data rows are to be set apart gives no row to the
/// table: the rows of the next file come directly below those of the file
/// before it.
pub proof fn lemma_block_without_kept_rows(
    rows: Seq<Vec<Cell>>,
    canonical: Seq<Seq<char>>,
    columns: Seq<ColumnView>,
)
    requires
        spec_usable_rows(rows, rows.len()).len() > 0,
        forall|k: int|
            1 <= k < spec_usable_rows(rows, rows.len()).len() ==> spec_discardable(
                rows[#[trigger] spec_usable_rows(rows, rows.len())[k] as int]@,
                rows[spec_usable_rows(rows, rows.len())[0] as int]@,
                columns,
            ),
    ensures
        spec_block(rows, canonical, columns).rows.len() == 0,
        spec_block(rows, canonical, columns).set_apart.len() == spec_usable_rows(
            rows,
            rows.len(),
        ).len() - 1,
{
    let places = spec_usable_rows(rows, rows.len());
    let header = rows[places[0] as int]@;
    let data = places.skip(1);
    assert forall|k: int| 0 <= k < data.len() implies spec_discardable(
        rows[#[trigger] data[k] as int]@,
        header,
        columns,
    ) by {
        assert(data[k] == places[k + 1]);
    }
    lemma_kept_and_set_apart(
        rows,
        data,
        header,
        columns,
        spec_sources(canonical, columns),
        data.len(),
    );
}

/// The views of the rows of `grid`, top to bottom.
pub open spec fn spec_grid(grid: Seq<Vec<Cell>>) -> Seq<Seq<Cell>> {
    grid.map_values(|r: Vec<Cell>| r@)
}

/// Appends to `table` and to `set_apart` what the rows of one sheet of one
/// file give, the file having `columns` and the table the headers
/// `canonical`.
pub fn append_block(
    table: &mut Vec<Vec<Cell>>,
    set_apart: &mut Vec<Vec<Cell>>,
    rows: &Vec<Vec<Cell>>,
    canonical: &Vec<String>,
    columns: &Vec<Column>,
)
    ensures
        spec_grid(final(table)@) == spec_grid(old(table)@) + spec_block(
            rows@,
            spec_texts(canonical@),
            columns@.map_values(|c: Column| c@),
        ).rows,
        spec_grid(final(set_apart)@) == spec_grid(old(set_apart)@) + spec_block(
            rows@,
            spec_texts(canonical@),
            columns@.map_values(|c: Column| c@),
        ).set_apart,
{
    let ghost views = columns@.map_values(|c: Column| c@);
    let ghost block = spec_block(rows@, spec_texts(canonical@), views);
    let ghost table_before = spec_grid(table@);
    let ghost apart_before = spec_grid(set_apart@);
    let places = usable_rows(rows);
    if places.len() == 0 {
        assert(table_before + block.rows =~= table_before);
        assert(apart_before + block.set_apart =~= apart_before);
        return ;
    }
    proof {
        lemma_usable_rows(rows@, rows.len() as nat);
    }
    let header = &rows[places[0]];
    let data = slice_subrange(places.as_slice(), 1, places.len());
    assert(data@ == places@.skip(1));
    assert forall|k: int| 0 <= k < data@.len() implies (#[trigger] data@[k]) < rows.len() by {
        assert(data@[k] == places@[k + 1]);
    }
    let from = sources(canonical, columns);
    let ghost wanted = spec_as_places(from@);
    let mut kept: Vec<Vec<Cell>> = Vec::new();
    let mut k: usize = 0;
    assert(spec_grid(kept@) =~= spec_kept(rows@, data@, header@, views, wanted, 0));
    assert(apart_before + spec_set_apart(rows@, data@, header@, views, 0) =~= apart_before);
    while k < data.len()
        invariant
            k <= data.len(),
            forall|k: int| 0 <= k < data@.len() ==> (#[trigger] data@[k]) < rows.len(),
            views == columns@.map_values(|c: Column| c@),
            wanted == spec_as_places(from@),
            spec_grid(kept@) == spec_kept(rows@, data@, header@, views, wanted, k as nat),
            spec_grid(set_apart@) == apart_before + spec_set_apart(
                rows@,
                data@,
                header@,
                views,
                k as nat,
            ),
        decreases data.len() - k,
    {
        let row = &rows[data[k]];
        let ghost kept_before = kept@;
        let ghost apart_now = set_apart@;
        if discardable(row, header, columns) {
            set_apart.push(copy_row(row));
            assert(spec_grid(set_apart@) =~= spec_grid(apart_now).push(row@));
            assert(spec_grid(set_apart@) =~= apart_before + spec_set_apart(
                rows@,
                data@,
                header@,
                views,
                (k + 1) as nat,
            ));
        } else {
            kept.push(output_row(row, &from));
            assert(spec_grid(kept@) =~= spec_grid(kept_before).push(spec_output_row(row@, wanted)));
        }
        k += 1;
    }
    table.append(&mut kept);
    assert(spec_grid(table@) =~= table_before + block.rows);
}

/// What file `file` gives to the table of the sheet of `entry`: what its
/// first sheet of that name gives, the name taken with case and spacing set
/// aside, if the file has columns under that sheet and has such a sheet;
/// else nothing.
pub open spec fn spec_file_block(book: Book, file: usize, entry: SheetHeadersView) -> TableView {
    let at = spec_file_place(entry.files, file);
    if 0 <= at < entry.files.len() {
        match spec_sheet_named(book.sheets@, entry.name, 0) {
            Some(s) => spec_block(book.sheets@[s].rows@, entry.canonical, entry.files[at].columns),
            None => TableView { rows: Seq::empty(), set_apart: Seq::empty() },
        }
    } else {
        TableView { rows: Seq::empty(), set_apart: Seq::empty() }
    }
}

/// The table of the sheet of `entry` after the first `n` files: what each
/// file gives, one file below the other in the order of the files.
pub open spec fn spec_table(books: Seq<Book>, entry: SheetHeadersView, n: nat) -> TableView
    decreases n,
{
    if n == 0 {
        TableView { rows: Seq::empty(), set_apart: Seq::empty() }
    } else {
        let before = spec_table(books, entry, (n - 1) as nat);
        let block = spec_file_block(books[n - 1], (n - 1) as usize, entry);
        TableView {
            rows: before.rows + block.rows,
            set_apart: before.set_apart + block.set_apart,
        }
    }
}

/// The place of the entry of `file` among `files`, or their number where
/// it has none.
pub fn file_place(files: &Vec<FileColumns>, file: usize) -> (at: usize)
    ensures
        at == spec_file_place(files@.map_values(|f: FileColumns| f@), file),
        at <= files.len(),
{
    let ghost views = files@.map_values(|f: FileColumns| f@);
    proof {
        crate::headers::lemma_file_place(views, file);
    }
    let mut at: usize = 0;
    while at < files.len() && files[at].file != file
        invariant
            at <= files.len(),
            views == files@.map_values(|f: FileColumns| f@),
            forall|i: int| 0 <= i < at ==> (#[trigger] views[i]).file != file,
        decreases files.len() - at,
    {
        assert(views[at as int].file == files@[at as int].file);
        at += 1;
    }
    proof {
        let found = spec_file_place(views, file);
        if at < files.len() {
            assert(views[at as int].file == files@[at as int].file);
        }
        if found < at {
            assert(views[found].file != file);
        }
        if at < found {
            assert(views[at as int].file != file);
        }
    }
    at
}

/// One sheet of what comes out: its name, its headers, and its rows below
/// the header row, each as wide as the headers.
#[derive(Debug, PartialEq, Eq)]
pub struct OutputSheet {
    pub name: String,
    pub headers: Vec<String>,
    pub rows: Vec<Vec<Cell>>,
}

/// One sheet of what comes out as contracts see it.
pub ghost struct OutputSheetView {
    pub name: Seq<char>,
    pub headers: Seq<Seq<char>>,
    pub rows: Seq<Seq<Cell>>,
}

impl View for OutputSheet {
    type V = OutputSheetView;

    open spec fn view(&self) -> OutputSheetView {
        OutputSheetView {
            name: self.name@,
            headers: spec_texts(self.headers@),
            rows: spec_grid(self.rows@),
        }
    }
}

/// What comes out for a group: one table for each sheet, and the rows that
/// were set apart, in the order in which they were met.
#[derive(Debug, PartialEq, Eq)]
pub struct Output {
    pub sheets: Vec<OutputSheet>,
    pub set_apart: Vec<Vec<Cell>>,
}

/// What comes out for a group as contracts see it.
pub ghost struct OutputView {
    pub sheets: Seq<OutputSheetView>,
    pub set_apart: Seq<Seq<Cell>>,
}

impl View for Output {
    type V = OutputView;

    open spec fn view(&self) -> OutputView {
        OutputView {
            sheets: self.sheets@.map_values(|s: OutputSheet| s@),
            set_apart: spec_grid(self.set_apart@),
        }
    }
}

/// Whether a sheet holds drop-down values: the first word of its name in
/// lower case begins with `desp`.
pub open spec fn spec_is_dropdown(name: Seq<char>) -> bool {
    spec_normal(name).len() > 0 && spec_starts_with(spec_normal(name)[0], "desp"@)
}

/// Whether a sheet holds drop-down values.
pub fn is_dropdown(name: &str) -> (r: bool)
    ensures
        r == spec_is_dropdown(name@),
{
    let words = normal_words(name);
    if words.len() == 0 {
        return false;
    }
    assert(spec_texts(words@)[0] == words@[0]@);
    starts_with(&to_chars(words[0].as_str()), &to_chars("desp"))
}

/// What comes out after the sheet `name` has been dealt with: nothing new
/// where the sheet holds drop-down values or has no entry; else the table
/// of its entry, under the name of the entry, after the tables before it,
/// and the rows set apart in it after those set apart before.
pub open spec fn spec_consolidate_sheet(
    out: OutputView,
    books: Seq<Book>,
    h: HeadersView,
    name: Seq<char>,
) -> OutputView {
    let at = spec_sheet_place(h.sheets, name);
    if spec_is_dropdown(name) || !(0 <= at < h.sheets.len()) {
        out
    } else {
        let table = spec_table(books, h.sheets[at], books.len());
        OutputView {
            sheets: out.sheets.push(
                OutputSheetView {
                    name: h.sheets[at].name,
                    headers: h.sheets[at].canonical,
                    rows: table.rows,
                },
            ),
            set_apart: out.set_apart + table.set_apart,
        }
    }
}

/// What comes out after the first `n` of the known sheets.
pub open spec fn spec_consolidate(books: Seq<Book>, h: HeadersView, n: nat) -> OutputView
    decreases n,
{
    if n == 0 {
        OutputView { sheets: Seq::empty(), set_apart: Seq::empty() }
    } else {
        spec_consolidate_sheet(
            spec_consolidate(books, h, (n - 1) as nat),
            books,
            h,
            h.known_sheets[n - 1],
        )
    }
}

/// A copy of `texts`.
pub fn copy_texts(texts: &Vec<String>) -> (r: Vec<String>)
    ensures
        spec_texts(r@) == spec_texts(texts@),
{
    let mut r: Vec<String> = Vec::new();
    let mut i: usize = 0;
    while i < texts.len()
        invariant
            i <= texts.len(),
            r@.len() == i,
            forall|k: int| 0 <= k < i ==> r@[k]@ == texts@[k]@,
        decreases texts.len() - i,
    {
        r.push(texts[i].clone());
        i += 1;
    }
    assert(spec_texts(r@) =~= spec_texts(texts@));
    r
}

/// The table of one sheet: file after file in the order of `books`, the
/// rows of each file that carry data, and apart from them the rows that
/// carry none.
pub fn consolidate_sheet(out: &mut Output, books: &Vec<Book>, entry: &SheetHeaders)
    ensures
        final(out)@.sheets == old(out)@.sheets.push(
            OutputSheetView {
                name: entry@.name,
                headers: entry@.canonical,
                rows: spec_table(books@, entry@, books.len() as nat).rows,
            },
        ),
        final(out)@.set_apart == old(out)@.set_apart + spec_table(
            books@,
            entry@,
            books.len() as nat,
        ).set_apart,
{
    let ghost apart_before = spec_grid(out.set_apart@);
    let ghost sheets_before = out@.sheets;
    let mut rows: Vec<Vec<Cell>> = Vec::new();
    let mut file: usize = 0;
    assert(spec_grid(rows@) =~= spec_table(books@, entry@, 0).rows);
    assert(apart_before + spec_table(books@, entry@, 0).set_apart =~= apart_before);
    while file < books.len()
        invariant
            file <= books.len(),
            out@.sheets == sheets_before,
            spec_grid(rows@) == spec_table(books@, entry@, file as nat).rows,
            spec_grid(out.set_apart@) == apart_before + spec_table(
                books@,
                entry@,
                file as nat,
            ).set_apart,
        decreases books.len() - file,
    {
        let ghost before = spec_table(books@, entry@, file as nat);
        let ghost block = spec_file_block(books@[file as int], file, entry@);
        let ghost rows_now = spec_grid(rows@);
        let ghost apart_now = spec_grid(out.set_apart@);
        let at = file_place(&entry.files, file);
        let mut done = false;
        if at < entry.files.len() {
            match sheet_named(&books[file].sheets, entry.name.as_str()) {
                Some(s) => {
                    assert(entry@.files[at as int].columns == entry.files@[at as int].columns@.map_values(
                        |c: Column| c@,
                    ));
                    append_block(
                        &mut rows,
                        &mut out.set_apart,
                        &books[file].sheets[s].rows,
                        &entry.canonical,
                        &entry.files[at].columns,
                    );
                    done = true;
                },
                None => {},
            }
        }
        proof {
            if !done {
                assert(rows_now + block.rows =~= rows_now);
                assert(apart_now + block.set_apart =~= apart_now);
            }
            assert(apart_before + (before.set_apart + block.set_apart) =~= (apart_before
                + before.set_apart) + block.set_apart);
        }
        file += 1;
    }
    let sheet = OutputSheet { name: entry.name.clone(), headers: copy_texts(&entry.canonical), rows };
    out.sheets.push(sheet);
    assert(out@.sheets =~= sheets_before.push(
        OutputSheetView {
            name: entry@.name,
            headers: entry@.canonical,
            rows: spec_table(books@, entry@, books.len() as nat).rows,
        },
    ));
}

/// The tables of a group of files, file `i` being `books[i]`, for the
/// headers `headers` of the group.
///
/// The known sheets are dealt with in order. A sheet of drop-down values
/// gives no table. Every other sheet gives a table under its name, with the
/// headers of the sheet, and below them, file after file, the data rows of
/// the file's sheet of that name; a row whose cells carry no data goes to
/// the rows set apart instead, and takes up no row of the table.
pub fn consolidate(books: &Vec<Book>, headers: &Headers) -> (out: Output)
    ensures
        out@ == spec_consolidate(books@, headers@, headers.known_sheets@.len()),
        spec_rectangular(out@),
{
    proof {
        lemma_consolidate_rectangular(books@, headers@, headers.known_sheets@.len());
    }
    let mut out = Output { sheets: Vec::new(), set_apart: Vec::new() };
    assert(out@.sheets =~= Seq::empty());
    assert(out@.set_apart =~= Seq::empty());
    let mut i: usize = 0;
    while i < headers.known_sheets.len()
        invariant
            i <= headers.known_sheets.len(),
            out@ == spec_consolidate(books@, headers@, i as nat),
        decreases headers.known_sheets.len() - i,
    {
        let name = &headers.known_sheets[i];
        assert(headers@.known_sheets[i as int] == name@);
        if !is_dropdown(name.as_str()) {
            let at = sheet_place(&headers.sheets, name.as_str());
            if at < headers.sheets.len() {
                proof {
                    crate::headers::lemma_sheet_place(headers@.sheets, name@);
                }
                assert(headers@.sheets[at as int] == headers.sheets@[at as int]@);
                consolidate_sheet(&mut out, books, &headers.sheets[at]);
            }
        }
        i += 1;
    }
    out
}

/// Every row of every table is as wide as the headers of the table.
pub open spec fn spec_rectangular(out: OutputView) -> bool {
    forall|s: int, r: int|
        0 <= s < out.sheets.len() && 0 <= r < out.sheets[s].rows.len() ==> (
        #[trigger] out.sheets[s].rows[r]).len() == out.sheets[s].headers.len()
}

/// Every one of `rows` is `width` cells wide.
pub open spec fn spec_all_wide(rows: Seq<Seq<Cell>>, width: nat) -> bool {
    forall|r: int| 0 <= r < rows.len() ==> (#[trigger] rows[r]).len() == width
}

/// The rows kept are as wide as the list of their sources.
proof fn lemma_kept_width(
    rows: Seq<Vec<Cell>>,
    data: Seq<usize>,
    header: Seq<Cell>,
    columns: Seq<ColumnView>,
    sources: Seq<Option<int>>,
    n: nat,
)
    ensures
        spec_all_wide(spec_kept(rows, data, header, columns, sources, n), sources.len()),
    decreases n,
{
    if n > 0 {
        lemma_kept_width(rows, data, header, columns, sources, (n - 1) as nat);
        let before = spec_kept(rows, data, header, columns, sources, (n - 1) as nat);
        let now = spec_kept(rows, data, header, columns, sources, n);
        assert forall|r: int| 0 <= r < now.len() implies (#[trigger] now[r]).len()
            == sources.len() by {
            if r < before.len() {
                assert(now[r] == before[r]);
            }
        }
    }
}

/// What a file gives to a table is as wide as the headers of the table.
pub proof fn lemma_block_width(
    rows: Seq<Vec<Cell>>,
    canonical: Seq<Seq<char>>,
    columns: Seq<ColumnView>,
)
    ensures
        spec_all_wide(spec_block(rows, canonical, columns).rows, canonical.len()),
{
    let places = spec_usable_rows(rows, rows.len());
    if places.len() > 0 {
        let data = places.skip(1);
        lemma_kept_width(
            rows,
            data,
            rows[places[0] as int]@,
            columns,
            spec_sources(canonical, columns),
            data.len(),
        );
    }
}

/// The rows of a table are as wide as its headers.
pub proof fn lemma_table_width(books: Seq<Book>, entry: SheetHeadersView, n: nat)
    ensures
        spec_all_wide(spec_table(books, entry, n).rows, entry.canonical.len()),
    decreases n,
{
    if n > 0 {
        lemma_table_width(books, entry, (n - 1) as nat);
        let before = spec_table(books, entry, (n - 1) as nat).rows;
        let block = spec_file_block(books[n - 1], (n - 1) as usize, entry).rows;
        let at = spec_file_place(entry.files, (n - 1) as usize);
        if 0 <= at < entry.files.len() {
            match spec_sheet_named(books[n - 1].sheets@, entry.name, 0) {
                Some(s) => {
                    lemma_block_width(
                        books[n - 1].sheets@[s].rows@,
                        entry.canonical,
                        entry.files[at].columns,
                    );
                },
                None => {},
            }
        }
        let now = spec_table(books, entry, n).rows;
        assert forall|r: int| 0 <= r < now.len() implies (#[trigger] now[r]).len()
            == entry.canonical.len() by {
            if r < before.len() {
                assert(now[r] == before[r]);
            } else {
                assert(now[r] == block[r - before.len()]);
            }
        }
    }
}

/// In what comes out, every row of every table is as wide as the headers of
/// the table.
pub proof fn lemma_consolidate_rectangular(books: Seq<Book>, h: HeadersView, n: nat)
    ensures
        spec_rectangular(spec_consolidate(books, h, n)),
    decreases n,
{
    if n > 0 {
        lemma_consolidate_rectangular(books, h, (n - 1) as nat);
        let before = spec_consolidate(books, h, (n - 1) as nat);
        let now = spec_consolidate(books, h, n);
        let name = h.known_sheets[n - 1];
        let at = spec_sheet_place(h.sheets, name);
        if !spec_is_dropdown(name) && 0 <= at < h.sheets.len() {
            lemma_table_width(books, h.sheets[at], books.len());
            assert forall|s: int, r: int|
                0 <= s < now.sheets.len() && 0 <= r < now.sheets[s].rows.len() implies (
            #[trigger] now.sheets[s].rows[r]).len() == now.sheets[s].headers.len() by {
                if s < before.sheets.len() {
                    assert(now.sheets[s] == before.sheets[s]);
                }
            }
        }
    }
}

/// What is written into a cell of a table.
#[derive(Debug, PartialEq, Eq)]
pub enum Written {
    Int(i64),
    /// A number with a fraction, by its bits.
    Float(u64),
    Text(String),
    Bool(bool),
    /// A date, by the bits of its serial number, to be shown as day, month
    /// and year.
    Date(u64),
    /// The empty text.
    Blank,
    /// Nothing is written.
    Nothing,
}

/// What is written for a cell: its value by its kind; for a text, a date
/// or a duration in text form the text; for an error the empty text; and
/// nothing for an empty cell.
pub open spec fn spec_written(cell: Cell) -> Written {
    match cell {
        Cell::Int(v) => Written::Int(v),
        Cell::Float(v) => Written::Float(v.bits),
        Cell::Text(v) => Written::Text(v),
        Cell::DateTimeIso(v) => Written::Text(v),
        Cell::DurationIso(v) => Written::Text(v),
        Cell::Bool(v) => Written::Bool(v),
        Cell::DateTime(v) => Written::Date(v),
        Cell::Error => Written::Blank,
        Cell::Empty => Written::Nothing,
    }
}

/// What is written for a cell.
pub fn write_cell(cell: &Cell) -> (r: Written)
    ensures
        r == spec_written(*cell),
{
    match cell {
        Cell::Int(v) => Written::Int(*v),
        Cell::Float(v) => Written::Float(v.bits),
        Cell::Text(v) => Written::Text(v.clone()),
        Cell::DateTimeIso(v) => Written::Text(v.clone()),
        Cell::DurationIso(v) => Written::Text(v.clone()),
        Cell::Bool(v) => Written::Bool(*v),
        Cell::DateTime(v) => Written::Date(*v),
        Cell::Error => Written::Blank,
        Cell::Empty => Written::Nothing,
    }
}

} // verus!
