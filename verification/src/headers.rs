//! The headers of a group of files: for each sheet name the headers under
//! which its columns are joined, and for each file what is known of the
//! columns that it has under each of its own headers.

use crate::columns::{column_info, spec_column, spec_column_info};
use crate::sheets::{
    cell_text, lemma_sheet_named, lemma_sheet_named_alike, lemma_usable_rows, sheet_named,
    spec_cell_text, spec_sheet_named, spec_usable_rows, usable_rows, Book, Cell, ColumnInfo,
    Sheet,
};
use crate::text::{
    header_has_words, is_blank, normal_words, same_text, spec_is_blank, spec_normal, spec_texts,
};
use vstd::prelude::*;
use vstd::slice::slice_subrange;

verus! {

/// A column of a file under the header that the file gives it.
#[derive(Debug, PartialEq, Eq)]
pub struct Column {
    pub name: String,
    pub info: ColumnInfo,
}

/// A column as contracts see it.
pub ghost struct ColumnView {
    pub name: Seq<char>,
    pub info: ColumnInfo,
}

impl View for Column {
    type V = ColumnView;

    open spec fn view(&self) -> ColumnView {
        ColumnView { name: self.name@, info: self.info }
    }
}

/// The columns that one file has in one sheet, each header once.
#[derive(Debug, PartialEq, Eq)]
pub struct FileColumns {
    pub file: usize,
    pub columns: Vec<Column>,
}

/// The columns of a file as contracts see them.
pub ghost struct FileColumnsView {
    pub file: usize,
    pub columns: Seq<ColumnView>,
}

impl View for FileColumns {
    type V = FileColumnsView;

    open spec fn view(&self) -> FileColumnsView {
        FileColumnsView { file: self.file, columns: self.columns@.map_values(|c: Column| c@) }
    }
}

/// What the files of a group hold under one sheet name: the columns of each
/// file, and the headers of the sheet in the spelling in which each was
/// first seen.
#[derive(Debug, PartialEq, Eq)]
pub struct SheetHeaders {
    pub name: String,
    pub files: Vec<FileColumns>,
    pub canonical: Vec<String>,
}

/// What is held under a sheet name as contracts see it.
pub ghost struct SheetHeadersView {
    pub name: Seq<char>,
    pub files: Seq<FileColumnsView>,
    pub canonical: Seq<Seq<char>>,
}

impl View for SheetHeaders {
    type V = SheetHeadersView;

    open spec fn view(&self) -> SheetHeadersView {
        SheetHeadersView {
            name: self.name@,
            files: self.files@.map_values(|f: FileColumns| f@),
            canonical: spec_texts(self.canonical@),
        }
    }
}

/// The headers of a group of files.
#[derive(Debug, PartialEq, Eq)]
pub struct Headers {
    /// One entry for each sheet, under its name as the first file that has
    /// the sheet spells it; a name in another case or spacing is the same
    /// sheet.
    pub sheets: Vec<SheetHeaders>,
    /// The names of the sheets, in the order in which they were met: the
    /// names of the entries.
    pub known_sheets: Vec<String>,
}

/// The headers of a group as contracts see them.
pub ghost struct HeadersView {
    pub sheets: Seq<SheetHeadersView>,
    pub known_sheets: Seq<Seq<char>>,
}

impl View for Headers {
    type V = HeadersView;

    open spec fn view(&self) -> HeadersView {
        HeadersView {
            sheets: self.sheets@.map_values(|s: SheetHeaders| s@),
            known_sheets: spec_texts(self.known_sheets@),
        }
    }
}

/// Whether one of `list` is `name` once case and spacing are set aside.
pub open spec fn spec_is_known(list: Seq<Seq<char>>, name: Seq<char>) -> bool {
    exists|i: int| 0 <= i < list.len() && spec_normal(#[trigger] list[i]) == spec_normal(name)
}

/// No two of `list` are the same once case and spacing are set aside.
pub open spec fn spec_no_twins(list: Seq<Seq<char>>) -> bool {
    forall|i: int, j: int|
        0 <= i < j < list.len() ==> spec_normal(#[trigger] list[i]) != spec_normal(
            #[trigger] list[j],
        )
}

/// `list` with `name` at its end, unless it is known already.
pub open spec fn spec_add_known(list: Seq<Seq<char>>, name: Seq<char>) -> Seq<Seq<char>> {
    if spec_is_known(list, name) {
        list
    } else {
        list.push(name)
    }
}

/// `list` with the header `name` at its end, unless it is known already or
/// is nothing but whitespace.
pub open spec fn spec_add_canonical(list: Seq<Seq<char>>, name: Seq<char>) -> Seq<Seq<char>> {
    if spec_is_known(list, name) || spec_is_blank(name) {
        list
    } else {
        list.push(name)
    }
}

/// Adding a name keeps a list free of twins.
pub proof fn lemma_add_known_no_twins(list: Seq<Seq<char>>, name: Seq<char>)
    requires
        spec_no_twins(list),
    ensures
        spec_no_twins(spec_add_known(list, name)),
        spec_no_twins(spec_add_canonical(list, name)),
{
    if !spec_is_known(list, name) {
        let longer = list.push(name);
        assert forall|i: int, j: int| 0 <= i < j < longer.len() implies spec_normal(
            #[trigger] longer[i],
        ) != spec_normal(#[trigger] longer[j]) by {
            assert(longer[i] == list[i]);
            if j < list.len() {
                assert(longer[j] == list[j]);
            }
        }
    }
}

/// Whether one of `list` is `name` once case and spacing are set aside.
pub fn is_known(list: &Vec<String>, name: &str) -> (r: bool)
    ensures
        r == spec_is_known(spec_texts(list@), name@),
{
    let wanted = normal_words(name);
    let mut i: usize = 0;
    while i < list.len()
        invariant
            i <= list.len(),
            spec_texts(wanted@) == spec_normal(name@),
            forall|k: int|
                0 <= k < i ==> spec_normal(#[trigger] spec_texts(list@)[k]) != spec_normal(name@),
        decreases list.len() - i,
    {
        assert(spec_texts(list@)[i as int] == list@[i as int]@);
        if header_has_words(&wanted, list[i].as_str()) {
            return true;
        }
        i += 1;
    }
    false
}

/// Puts `name` at the end of `list` unless it is known already.
pub fn add_known(list: &mut Vec<String>, name: &str)
    ensures
        spec_texts(final(list)@) == spec_add_known(spec_texts(old(list)@), name@),
{
    if !is_known(list, name) {
        let ghost before = list@;
        let own = name.to_owned();
        list.push(own);
        assert(spec_texts(list@) =~= spec_texts(before).push(name@));
    }
}

/// Puts the header `name` at the end of `list` unless it is known already
/// or is nothing but whitespace.
pub fn add_canonical(list: &mut Vec<String>, name: &str)
    ensures
        spec_texts(final(list)@) == spec_add_canonical(spec_texts(old(list)@), name@),
        spec_no_twins(spec_texts(old(list)@)) ==> spec_no_twins(spec_texts(final(list)@)),
{
    proof {
        if spec_no_twins(spec_texts(list@)) {
            lemma_add_known_no_twins(spec_texts(list@), name@);
        }
    }
    if !is_known(list, name) && !is_blank(name) {
        let ghost before = list@;
        let own = name.to_owned();
        list.push(own);
        assert(spec_texts(list@) =~= spec_texts(before).push(name@));
    }
}

/// The place of the first of `columns` under the header `name`, or their
/// number where there is none.
pub open spec fn spec_column_place(columns: Seq<ColumnView>, name: Seq<char>) -> int
    decreases columns.len(),
{
    if columns.len() == 0 {
        0
    } else if columns[0].name == name {
        0
    } else {
        1 + spec_column_place(columns.drop_first(), name)
    }
}

/// `columns` with `info` under the header `name`: in place of what stood
/// under that header, or at the end.
pub open spec fn spec_put_column(columns: Seq<ColumnView>, name: Seq<char>, info: ColumnInfo) -> Seq<
    ColumnView,
> {
    let at = spec_column_place(columns, name);
    if 0 <= at < columns.len() {
        columns.update(at, ColumnView { name: name, info: info })
    } else {
        columns.push(ColumnView { name: name, info: info })
    }
}

/// Where a header is found there is a column under it, and none before it.
pub proof fn lemma_column_place(columns: Seq<ColumnView>, name: Seq<char>)
    ensures
        0 <= spec_column_place(columns, name) <= columns.len(),
        spec_column_place(columns, name) < columns.len() ==> columns[spec_column_place(
            columns,
            name,
        )].name == name,
        forall|i: int|
            0 <= i < spec_column_place(columns, name) ==> (#[trigger] columns[i]).name != name,
    decreases columns.len(),
{
    if columns.len() == 0 {
    } else if columns[0].name == name {
    } else {
        let rest = columns.drop_first();
        lemma_column_place(rest, name);
        assert forall|i: int| 0 <= i < spec_column_place(columns, name) implies (
        #[trigger] columns[i]).name != name by {
            if i > 0 {
                assert(columns[i] == rest[i - 1]);
            }
        }
    }
}

/// The place of the first of `columns` under the header `name`, or their
/// number where there is none.
pub fn column_place(columns: &Vec<Column>, name: &str) -> (at: usize)
    ensures
        at == spec_column_place(columns@.map_values(|c: Column| c@), name@),
        at <= columns.len(),
{
    let ghost views = columns@.map_values(|c: Column| c@);
    proof {
        lemma_column_place(views, name@);
    }
    let mut at: usize = 0;
    while at < columns.len() && !same_text(columns[at].name.as_str(), name)
        invariant
            at <= columns.len(),
            views == columns@.map_values(|c: Column| c@),
            forall|i: int| 0 <= i < at ==> (#[trigger] views[i]).name != name@,
        decreases columns.len() - at,
    {
        assert(views[at as int].name == columns@[at as int].name@);
        at += 1;
    }
    proof {
        let found = spec_column_place(views, name@);
        if at < columns.len() {
            assert(views[at as int].name == columns@[at as int].name@);
        }
        if found < at {
            assert(views[found].name != name@);
        }
        if at < found {
            assert(views[at as int].name != name@);
        }
    }
    at
}

/// Puts `info` under the header `name`: in place of what stood under that
/// header, or at the end.
pub fn put_column(columns: &mut Vec<Column>, name: String, info: ColumnInfo)
    ensures
        final(columns)@.map_values(|c: Column| c@) == spec_put_column(
            old(columns)@.map_values(|c: Column| c@),
            name@,
            info,
        ),
{
    let at = column_place(columns, name.as_str());
    let ghost before = columns@.map_values(|c: Column| c@);
    if at < columns.len() {
        columns.remove(at);
        columns.insert(at, Column { name, info });
        assert(columns@.map_values(|c: Column| c@) =~= spec_put_column(before, name@, info));
    } else {
        columns.push(Column { name, info });
        assert(columns@.map_values(|c: Column| c@) =~= spec_put_column(before, name@, info));
    }
}

/// The place of the entry of `file` among `files`, or their number where it
/// has none.
pub open spec fn spec_file_place(files: Seq<FileColumnsView>, file: usize) -> int
    decreases files.len(),
{
    if files.len() == 0 {
        0
    } else if files[0].file == file {
        0
    } else {
        1 + spec_file_place(files.drop_first(), file)
    }
}

/// `files` with an entry for `file`: as they are where it has one, and else
/// with a new last entry without columns.
pub open spec fn spec_with_file(files: Seq<FileColumnsView>, file: usize) -> Seq<FileColumnsView> {
    if 0 <= spec_file_place(files, file) < files.len() {
        files
    } else {
        files.push(FileColumnsView { file: file, columns: Seq::empty() })
    }
}

/// Where a file is found there is its entry, and none before it.
pub proof fn lemma_file_place(files: Seq<FileColumnsView>, file: usize)
    ensures
        0 <= spec_file_place(files, file) <= files.len(),
        spec_file_place(files, file) < files.len() ==> files[spec_file_place(files, file)].file
            == file,
        forall|i: int| 0 <= i < spec_file_place(files, file) ==> (#[trigger] files[i]).file != file,
    decreases files.len(),
{
    if files.len() == 0 {
    } else if files[0].file == file {
    } else {
        let rest = files.drop_first();
        lemma_file_place(rest, file);
        assert forall|i: int| 0 <= i < spec_file_place(files, file) implies (
        #[trigger] files[i]).file != file by {
            if i > 0 {
                assert(files[i] == rest[i - 1]);
            }
        }
    }
}

/// The place of the entry of `file`, which is made where there is none.
pub fn file_entry(files: &mut Vec<FileColumns>, file: usize) -> (at: usize)
    ensures
        final(files)@.map_values(|f: FileColumns| f@) == spec_with_file(
            old(files)@.map_values(|f: FileColumns| f@),
            file,
        ),
        at == spec_file_place(final(files)@.map_values(|f: FileColumns| f@), file),
        at < final(files).len(),
{
    let ghost views = files@.map_values(|f: FileColumns| f@);
    proof {
        lemma_file_place(views, file);
    }
    let mut at: usize = 0;
    while at < files.len() && files[at].file != file
        invariant
            at <= files.len(),
            views == files@.map_values(|f: FileColumns| f@),
            forall|i: int| 0 <= i < at ==> (#[trigger] views[i]).file != file,
        decreases files.len() - at,
    {
        assert(views[at as int].file == files@[at as int].file);
        at += 1;
    }
    proof {
        let found = spec_file_place(views, file);
        if at < files.len() {
            assert(views[at as int].file == files@[at as int].file);
        }
        if found < at {
            assert(views[found].file != file);
        }
        if at < found {
            assert(views[at as int].file != file);
        }
    }
    if at == files.len() {
        let entry = FileColumns { file, columns: Vec::new() };
        assert(entry@.columns =~= Seq::empty());
        files.push(entry);
        proof {
            let after = files@.map_values(|f: FileColumns| f@);
            assert(after =~= views.push(FileColumnsView { file: file, columns: Seq::empty() }));
            lemma_file_place(after, file);
            let found = spec_file_place(after, file);
            assert(after[at as int].file == file);
            if found < at {
                assert(after[found] == views[found]);
            }
        }
    }
    at
}

/// The place of the entry of the sheet `name` among `sheets`, or their
/// number where it has none. A sheet is known by its name with case and
/// spacing set aside: files that spell a name differently share its entry.
pub open spec fn spec_sheet_place(sheets: Seq<SheetHeadersView>, name: Seq<char>) -> int
    decreases sheets.len(),
{
    if sheets.len() == 0 {
        0
    } else if spec_normal(sheets[0].name) == spec_normal(name) {
        0
    } else {
        1 + spec_sheet_place(sheets.drop_first(), name)
    }
}

/// `sheets` with an entry for the sheet `name`: as they are where it has
/// one, and else with a new last entry under that spelling that holds
/// nothing yet.
pub open spec fn spec_with_sheet(sheets: Seq<SheetHeadersView>, name: Seq<char>) -> Seq<
    SheetHeadersView,
> {
    if 0 <= spec_sheet_place(sheets, name) < sheets.len() {
        sheets
    } else {
        sheets.push(SheetHeadersView { name: name, files: Seq::empty(), canonical: Seq::empty() })
    }
}

/// Where a sheet name is found there is its entry, and none before it.
pub proof fn lemma_sheet_place(sheets: Seq<SheetHeadersView>, name: Seq<char>)
    ensures
        0 <= spec_sheet_place(sheets, name) <= sheets.len(),
        spec_sheet_place(sheets, name) < sheets.len() ==> spec_normal(
            sheets[spec_sheet_place(sheets, name)].name,
        ) == spec_normal(name),
        forall|i: int|
            0 <= i < spec_sheet_place(sheets, name) ==> spec_normal((#[trigger] sheets[i]).name)
                != spec_normal(name),
    decreases sheets.len(),
{
    if sheets.len() == 0 {
    } else if spec_normal(sheets[0].name) == spec_normal(name) {
    } else {
        let rest = sheets.drop_first();
        lemma_sheet_place(rest, name);
        assert forall|i: int| 0 <= i < spec_sheet_place(sheets, name) implies spec_normal(
            (#[trigger] sheets[i]).name,
        ) != spec_normal(name) by {
            if i > 0 {
                assert(sheets[i] == rest[i - 1]);
            }
        }
    }
}

/// The place of the entry of the sheet `name`, or the number of entries
/// where it has none.
pub fn sheet_place(sheets: &Vec<SheetHeaders>, name: &str) -> (at: usize)
    ensures
        at == spec_sheet_place(sheets@.map_values(|s: SheetHeaders| s@), name@),
        at <= sheets.len(),
{
    let ghost views = sheets@.map_values(|s: SheetHeaders| s@);
    proof {
        lemma_sheet_place(views, name@);
    }
    let wanted = normal_words(name);
    let mut at: usize = 0;
    while at < sheets.len() && !header_has_words(&wanted, sheets[at].name.as_str())
        invariant
            at <= sheets.len(),
            views == sheets@.map_values(|s: SheetHeaders| s@),
            spec_texts(wanted@) == spec_normal(name@),
            forall|i: int| 0 <= i < at ==> spec_normal((#[trigger] views[i]).name) != spec_normal(
                name@,
            ),
        decreases sheets.len() - at,
    {
        assert(views[at as int].name == sheets@[at as int].name@);
        at += 1;
    }
    proof {
        let found = spec_sheet_place(views, name@);
        if at < sheets.len() {
            assert(views[at as int].name == sheets@[at as int].name@);
        }
        if found < at {
            assert(spec_normal(views[found].name) != spec_normal(name@));
        }
        if at < found {
            assert(spec_normal(views[at as int].name) != spec_normal(name@));
        }
    }
    at
}

/// The place of the entry of the sheet `name`, which is made where there is
/// none.
pub fn sheet_entry(sheets: &mut Vec<SheetHeaders>, name: &str) -> (at: usize)
    ensures
        final(sheets)@.map_values(|s: SheetHeaders| s@) == spec_with_sheet(
            old(sheets)@.map_values(|s: SheetHeaders| s@),
            name@,
        ),
        at == spec_sheet_place(final(sheets)@.map_values(|s: SheetHeaders| s@), name@),
        at < final(sheets).len(),
{
    let ghost views = sheets@.map_values(|s: SheetHeaders| s@);
    let at = sheet_place(sheets, name);
    if at == sheets.len() {
        proof {
            lemma_sheet_place(views, name@);
        }
        let entry = SheetHeaders { name: name.to_owned(), files: Vec::new(), canonical: Vec::new() };
        assert(entry@.files =~= Seq::empty());
        assert(entry@.canonical =~= Seq::empty());
        sheets.push(entry);
        proof {
            let after = sheets@.map_values(|s: SheetHeaders| s@);
            assert(after =~= views.push(
                SheetHeadersView { name: name@, files: Seq::empty(), canonical: Seq::empty() },
            ));
            lemma_sheet_place(after, name@);
            let found = spec_sheet_place(after, name@);
            assert(after[at as int].name == name@);
            if found < at {
                assert(after[found] == views[found]);
            }
        }
    }
    at
}

/// The largest place of a column that can be recorded.
pub const MAX_COLUMN: usize = 0xffff;

/// The entry of a sheet after the header cell at `col` of a file has been
/// read. A cell without text changes nothing. The text of any other cell
/// joins the headers of the sheet unless it is known or blank, and the file
/// gets its entry; what is known of the column is put under that text,
/// unless the column stands too far to the right to be recorded.
pub open spec fn spec_record_cell(
    entry: SheetHeadersView,
    file: usize,
    rows: Seq<Vec<Cell>>,
    data: Seq<usize>,
    header: Seq<Cell>,
    col: int,
) -> SheetHeadersView {
    match spec_cell_text(header[col]) {
        None => entry,
        Some(name) => {
            let files = spec_with_file(entry.files, file);
            let at = spec_file_place(files, file);
            SheetHeadersView {
                name: entry.name,
                files: if col <= MAX_COLUMN {
                    files.update(
                        at,
                        FileColumnsView {
                            file: file,
                            columns: spec_put_column(
                                files[at].columns,
                                name,
                                spec_column_info(spec_column(rows, data, col), col as u16),
                            ),
                        },
                    )
                } else {
                    files
                },
                canonical: spec_add_canonical(entry.canonical, name),
            }
        },
    }
}

/// The entry of a sheet after the first `n` header cells of a file have
/// been read, left to right.
pub open spec fn spec_record_cells(
    entry: SheetHeadersView,
    file: usize,
    rows: Seq<Vec<Cell>>,
    data: Seq<usize>,
    header: Seq<Cell>,
    n: nat,
) -> SheetHeadersView
    decreases n,
{
    if n == 0 {
        entry
    } else {
        spec_record_cell(
            spec_record_cells(entry, file, rows, data, header, (n - 1) as nat),
            file,
            rows,
            data,
            header,
            n - 1,
        )
    }
}

/// The entry of a sheet after the rows that a file has under that sheet's
/// name have been read: the first row that counts is the header row, the
/// other rows that count are the data rows. Rows of which none counts
/// change nothing.
pub open spec fn spec_record_rows(entry: SheetHeadersView, file: usize, rows: Seq<Vec<Cell>>) -> SheetHeadersView {
    let places = spec_usable_rows(rows, rows.len());
    if places.len() == 0 {
        entry
    } else {
        spec_record_cells(
            entry,
            file,
            rows,
            places.skip(1),
            rows[places[0] as int]@,
            rows[places[0] as int]@.len(),
        )
    }
}

/// The headers after one sheet of a file has been read: its name is known,
/// it has an entry, and the entry has taken up the rows.
pub open spec fn spec_record_sheet(h: HeadersView, file: usize, sheet: Sheet) -> HeadersView {
    let sheets = spec_with_sheet(h.sheets, sheet.name@);
    let at = spec_sheet_place(sheets, sheet.name@);
    HeadersView {
        sheets: sheets.update(at, spec_record_rows(sheets[at], file, sheet.rows@)),
        known_sheets: spec_add_known(h.known_sheets, sheet.name@),
    }
}

/// Whether sheet `i` of a file counts: no sheet before it in the file has
/// the same name once case and spacing are set aside.
pub open spec fn spec_sheet_counts(sheets: Seq<Sheet>, i: int) -> bool {
    spec_sheet_named(sheets, sheets[i].name@, 0) == Some(i)
}

/// The headers after the first `n` sheets of a file have been read. A
/// sheet that does not count is passed over.
pub open spec fn spec_record_book(h: HeadersView, file: usize, sheets: Seq<Sheet>, n: nat) -> HeadersView
    decreases n,
{
    if n == 0 {
        h
    } else if spec_sheet_counts(sheets, n - 1) {
        spec_record_sheet(spec_record_book(h, file, sheets, (n - 1) as nat), file, sheets[n - 1])
    } else {
        spec_record_book(h, file, sheets, (n - 1) as nat)
    }
}

/// The headers of the first `n` of `books`, file `i` being `books[i]`.
pub open spec fn spec_extract(books: Seq<Book>, n: nat) -> HeadersView
    decreases n,
{
    if n == 0 {
        HeadersView { sheets: Seq::empty(), known_sheets: Seq::empty() }
    } else {
        spec_record_book(
            spec_extract(books, (n - 1) as nat),
            (n - 1) as usize,
            books[n - 1].sheets@,
            books[n - 1].sheets@.len(),
        )
    }
}

/// Takes up the rows that the file `file` has under the name of the sheet
/// of `entry`.
pub fn record_rows(entry: &mut SheetHeaders, file: usize, rows: &Vec<Vec<Cell>>)
    ensures
        final(entry)@ == spec_record_rows(old(entry)@, file, rows@),
{
    let places = usable_rows(rows);
    if places.len() == 0 {
        return ;
    }
    proof {
        lemma_usable_rows(rows@, rows.len() as nat);
    }
    let header = &rows[places[0]];
    let data = slice_subrange(places.as_slice(), 1, places.len());
    assert(data@ == places@.skip(1));
    assert forall|k: int| 0 <= k < data@.len() implies (#[trigger] data@[k]) < rows.len() by {
        assert(data@[k] == places@[k + 1]);
    }
    let mut col: usize = 0;
    while col < header.len()
        invariant
            col <= header.len(),
            forall|k: int| 0 <= k < data@.len() ==> (#[trigger] data@[k]) < rows.len(),
            entry@ == spec_record_cells(old(entry)@, file, rows@, data@, header@, col as nat),
        decreases header.len() - col,
    {
        let ghost before = entry@;
        match cell_text(&header[col]) {
            None => {},
            Some(name) => {
                add_canonical(&mut entry.canonical, name.as_str());
                let at = file_entry(&mut entry.files, file);
                let ghost with_file = entry@.files;
                proof {
                    lemma_file_place(with_file, file);
                }
                if col <= MAX_COLUMN {
                    let info = column_info(rows, data, col as u16);
                    let mut columns = entry.files.remove(at);
                    let ghost taken = columns@;
                    assert(taken == with_file[at as int]);
                    put_column(&mut columns.columns, name, info);
                    assert(columns@ == FileColumnsView {
                        file: file,
                        columns: spec_put_column(taken.columns, name@, info),
                    });
                    entry.files.insert(at, columns);
                    assert(entry@.files =~= with_file.update(
                        at as int,
                        FileColumnsView {
                            file: file,
                            columns: spec_put_column(taken.columns, name@, info),
                        },
                    ));
                }
                assert(entry@ == spec_record_cell(before, file, rows@, data@, header@, col as int));
            },
        }
        col += 1;
    }
}

/// Takes up one sheet of the file `file`.
pub fn record_sheet(headers: &mut Headers, file: usize, sheet: &Sheet)
    ensures
        final(headers)@ == spec_record_sheet(old(headers)@, file, *sheet),
{
    let ghost before = headers@;
    add_known(&mut headers.known_sheets, sheet.name.as_str());
    let at = sheet_entry(&mut headers.sheets, sheet.name.as_str());
    let mut entry = headers.sheets.remove(at);
    record_rows(&mut entry, file, &sheet.rows);
    headers.sheets.insert(at, entry);
    assert(headers@.sheets =~= spec_with_sheet(before.sheets, sheet.name@).update(
        at as int,
        spec_record_rows(spec_with_sheet(before.sheets, sheet.name@)[at as int], file, sheet.rows@),
    ));
}

/// The headers of a group of files, file `i` being `books[i]`: the files
/// are read in order, and of each its sheets in order. Sheets are known by
/// their names with case and spacing set aside, and of several sheets of
/// one file that are named alike the first counts.
pub fn extract_headers(books: &Vec<Book>) -> (headers: Headers)
    ensures
        headers@ == spec_extract(books@, books.len() as nat),
        spec_tidy(headers@),
        spec_orderly(headers@),
{
    proof {
        lemma_extract_tidy(books@, books.len() as nat);
        lemma_extract_orderly(books@, books.len() as nat);
    }
    let mut headers = Headers { sheets: Vec::new(), known_sheets: Vec::new() };
    assert(headers@.sheets =~= Seq::empty());
    assert(headers@.known_sheets =~= Seq::empty());
    let mut file: usize = 0;
    while file < books.len()
        invariant
            file <= books.len(),
            headers@ == spec_extract(books@, file as nat),
        decreases books.len() - file,
    {
        let book = &books[file];
        let mut i: usize = 0;
        while i < book.sheets.len()
            invariant
                i <= book.sheets.len(),
                file < books.len(),
                book == &books@[file as int],
                headers@ == spec_record_book(
                    spec_extract(books@, file as nat),
                    file,
                    book.sheets@,
                    i as nat,
                ),
            decreases book.sheets.len() - i,
        {
            let counts = match sheet_named(&book.sheets, book.sheets[i].name.as_str()) {
                Some(first) => first == i,
                None => false,
            };
            if counts {
                record_sheet(&mut headers, file, &book.sheets[i]);
            }
            i += 1;
        }
        file += 1;
    }
    headers
}

/// Among the known sheet names no two are the same once case and spacing
/// are set aside, and neither are two headers of one sheet.
pub open spec fn spec_tidy(h: HeadersView) -> bool {
    spec_no_twins(h.known_sheets) && forall|i: int|
        0 <= i < h.sheets.len() ==> spec_no_twins((#[trigger] h.sheets[i]).canonical)
}

/// Reading header cells keeps the headers of a sheet free of twins.
pub proof fn lemma_record_cells_tidy(
    entry: SheetHeadersView,
    file: usize,
    rows: Seq<Vec<Cell>>,
    data: Seq<usize>,
    header: Seq<Cell>,
    n: nat,
)
    requires
        spec_no_twins(entry.canonical),
    ensures
        spec_no_twins(spec_record_cells(entry, file, rows, data, header, n).canonical),
    decreases n,
{
    if n > 0 {
        lemma_record_cells_tidy(entry, file, rows, data, header, (n - 1) as nat);
        let before = spec_record_cells(entry, file, rows, data, header, (n - 1) as nat);
        match spec_cell_text(header[n - 1]) {
            None => {},
            Some(name) => {
                lemma_add_known_no_twins(before.canonical, name);
            },
        }
    }
}

/// Reading a sheet keeps the headers tidy.
pub proof fn lemma_record_sheet_tidy(h: HeadersView, file: usize, sheet: Sheet)
    requires
        spec_tidy(h),
    ensures
        spec_tidy(spec_record_sheet(h, file, sheet)),
{
    let sheets = spec_with_sheet(h.sheets, sheet.name@);
    let at = spec_sheet_place(sheets, sheet.name@);
    let after = spec_record_sheet(h, file, sheet);
    lemma_add_known_no_twins(h.known_sheets, sheet.name@);
    lemma_sheet_place(sheets, sheet.name@);
    lemma_sheet_place(h.sheets, sheet.name@);
    if spec_sheet_place(h.sheets, sheet.name@) >= h.sheets.len() {
        assert(sheets[sheets.len() - 1].name == sheet.name@);
    }
    assert(0 <= at < sheets.len());
    assert(sheet.rows@.len() == sheet.rows.len());
    lemma_usable_rows(sheet.rows@, sheet.rows@.len());
    assert forall|i: int| 0 <= i < sheets.len() implies spec_no_twins(
        (#[trigger] sheets[i]).canonical,
    ) by {
        if i < h.sheets.len() {
            assert(sheets[i] == h.sheets[i]);
        }
    }
    let places = spec_usable_rows(sheet.rows@, sheet.rows@.len());
    if 0 <= at < sheets.len() && places.len() > 0 {
        lemma_record_cells_tidy(
            sheets[at],
            file,
            sheet.rows@,
            places.skip(1),
            sheet.rows@[places[0] as int]@,
            sheet.rows@[places[0] as int]@.len(),
        );
    }
    assert forall|i: int| 0 <= i < after.sheets.len() implies spec_no_twins(
        (#[trigger] after.sheets[i]).canonical,
    ) by {
        if i != at {
            assert(after.sheets[i] == sheets[i]);
        }
    }
}

/// Reading the sheets of a file keeps the headers tidy.
pub proof fn lemma_record_book_tidy(h: HeadersView, file: usize, sheets: Seq<Sheet>, n: nat)
    requires
        spec_tidy(h),
        n <= sheets.len(),
    ensures
        spec_tidy(spec_record_book(h, file, sheets, n)),
    decreases n,
{
    if n > 0 {
        lemma_record_book_tidy(h, file, sheets, (n - 1) as nat);
        if spec_sheet_counts(sheets, n - 1) {
            lemma_record_sheet_tidy(
                spec_record_book(h, file, sheets, (n - 1) as nat),
                file,
                sheets[n - 1],
            );
        }
    }
}

/// The headers of a group never hold two sheet names, or two headers of one
/// sheet, that are the same once case and spacing are set aside.
pub proof fn lemma_extract_tidy(books: Seq<Book>, n: nat)
    requires
        n <= books.len(),
    ensures
        spec_tidy(spec_extract(books, n)),
    decreases n,
{
    if n > 0 {
        lemma_extract_tidy(books, (n - 1) as nat);
        lemma_record_book_tidy(
            spec_extract(books, (n - 1) as nat),
            (n - 1) as usize,
            books[n - 1].sheets@,
            books[n - 1].sheets@.len(),
        );
    }
}

/// No two of `files` are entries of the same file.
pub open spec fn spec_distinct_files(files: Seq<FileColumnsView>) -> bool {
    forall|i: int, j: int|
        0 <= i < j < files.len() ==> (#[trigger] files[i]).file != (#[trigger] files[j]).file
}

/// No two of `columns` stand under the same header.
pub open spec fn spec_distinct_headers(columns: Seq<ColumnView>) -> bool {
    forall|i: int, j: int|
        0 <= i < j < columns.len() ==> (#[trigger] columns[i]).name != (#[trigger] columns[j]).name
}

/// In the entry of a sheet every file has one entry at most, and in the
/// entry of a file every header has one column at most.
pub open spec fn spec_entry_orderly(entry: SheetHeadersView) -> bool {
    spec_distinct_files(entry.files) && forall|f: int|
        0 <= f < entry.files.len() ==> spec_distinct_headers((#[trigger] entry.files[f]).columns)
}

/// The names of the entries `sheets`, in order.
pub open spec fn spec_sheet_names(sheets: Seq<SheetHeadersView>) -> Seq<Seq<char>> {
    sheets.map_values(|s: SheetHeadersView| s.name)
}

/// The headers hold every sheet, file and header once: no two entries of
/// sheets have the same name once case and spacing are set aside; the known
/// sheets are the names of the entries, so that every known sheet has its
/// entry; and every entry is orderly.
pub open spec fn spec_orderly(h: HeadersView) -> bool {
    spec_no_twins(spec_sheet_names(h.sheets)) && h.known_sheets == spec_sheet_names(h.sheets)
        && forall|s: int| 0 <= s < h.sheets.len() ==> spec_entry_orderly(#[trigger] h.sheets[s])
}

/// Putting a column under a header leaves every header with one column.
pub proof fn lemma_put_column_distinct(columns: Seq<ColumnView>, name: Seq<char>, info: ColumnInfo)
    requires
        spec_distinct_headers(columns),
    ensures
        spec_distinct_headers(spec_put_column(columns, name, info)),
{
    let after = spec_put_column(columns, name, info);
    lemma_column_place(columns, name);
    assert forall|i: int, j: int| 0 <= i < j < after.len() implies (#[trigger] after[i]).name != (
    #[trigger] after[j]).name by {
        if i < columns.len() {
            assert(after[i].name == columns[i].name);
        }
        if j < columns.len() {
            assert(after[j].name == columns[j].name);
        }
    }
}

/// Giving a file its entry leaves every file with one entry, and the entry
/// is found.
pub proof fn lemma_with_file_distinct(files: Seq<FileColumnsView>, file: usize)
    requires
        spec_distinct_files(files),
    ensures
        spec_distinct_files(spec_with_file(files, file)),
        0 <= spec_file_place(spec_with_file(files, file), file) < spec_with_file(files, file).len(),
        spec_with_file(files, file)[spec_file_place(spec_with_file(files, file), file)].file
            == file,
{
    let after = spec_with_file(files, file);
    lemma_file_place(files, file);
    lemma_file_place(after, file);
    if !(spec_file_place(files, file) < files.len()) {
        assert(after[files.len() as int].file == file);
        assert forall|i: int, j: int| 0 <= i < j < after.len() implies (#[trigger] after[i]).file
            != (#[trigger] after[j]).file by {
            assert(after[i] == files[i]);
            if j < files.len() {
                assert(after[j] == files[j]);
            }
        }
    }
}

/// Reading a header cell leaves the entry of a sheet orderly and under its
/// name.
pub proof fn lemma_record_cell_orderly(
    entry: SheetHeadersView,
    file: usize,
    rows: Seq<Vec<Cell>>,
    data: Seq<usize>,
    header: Seq<Cell>,
    col: int,
)
    requires
        spec_entry_orderly(entry),
    ensures
        spec_entry_orderly(spec_record_cell(entry, file, rows, data, header, col)),
        spec_record_cell(entry, file, rows, data, header, col).name == entry.name,
{
    match spec_cell_text(header[col]) {
        None => {},
        Some(name) => {
            let files = spec_with_file(entry.files, file);
            let at = spec_file_place(files, file);
            let after = spec_record_cell(entry, file, rows, data, header, col);
            lemma_with_file_distinct(entry.files, file);
            lemma_file_place(entry.files, file);
            assert forall|f: int| 0 <= f < files.len() implies spec_distinct_headers(
                (#[trigger] files[f]).columns,
            ) by {
                if f < entry.files.len() {
                    assert(files[f] == entry.files[f]);
                }
            }
            if col <= MAX_COLUMN {
                lemma_put_column_distinct(
                    files[at].columns,
                    name,
                    spec_column_info(spec_column(rows, data, col), col as u16),
                );
                assert forall|i: int, j: int| 0 <= i < j < after.files.len() implies (
                #[trigger] after.files[i]).file != (#[trigger] after.files[j]).file by {
                    assert(after.files[i].file == files[i].file);
                    assert(after.files[j].file == files[j].file);
                }
                assert forall|f: int| 0 <= f < after.files.len() implies spec_distinct_headers(
                    (#[trigger] after.files[f]).columns,
                ) by {
                    if f != at {
                        assert(after.files[f] == files[f]);
                    }
                }
            }
        },
    }
}

/// Reading header cells leaves the entry of a sheet orderly and under its
/// name.
pub proof fn lemma_record_cells_orderly(
    entry: SheetHeadersView,
    file: usize,
    rows: Seq<Vec<Cell>>,
    data: Seq<usize>,
    header: Seq<Cell>,
    n: nat,
)
    requires
        spec_entry_orderly(entry),
    ensures
        spec_entry_orderly(spec_record_cells(entry, file, rows, data, header, n)),
        spec_record_cells(entry, file, rows, data, header, n).name == entry.name,
    decreases n,
{
    if n > 0 {
        lemma_record_cells_orderly(entry, file, rows, data, header, (n - 1) as nat);
        lemma_record_cell_orderly(
            spec_record_cells(entry, file, rows, data, header, (n - 1) as nat),
            file,
            rows,
            data,
            header,
            n - 1,
        );
    }
}

/// A name is known among the names of the entries exactly if it has an
/// entry.
pub proof fn lemma_known_has_entry(sheets: Seq<SheetHeadersView>, name: Seq<char>)
    ensures
        spec_is_known(spec_sheet_names(sheets), name) <==> spec_sheet_place(sheets, name)
            < sheets.len(),
{
    let names = spec_sheet_names(sheets);
    let at = spec_sheet_place(sheets, name);
    lemma_sheet_place(sheets, name);
    if at < sheets.len() {
        assert(spec_normal(names[at]) == spec_normal(name));
    }
    if spec_is_known(names, name) {
        let i = choose|i: int|
            0 <= i < names.len() && spec_normal(#[trigger] names[i]) == spec_normal(name);
        assert(names[i] == sheets[i].name);
    }
}

/// Reading a sheet leaves the headers orderly.
pub proof fn lemma_record_sheet_orderly(h: HeadersView, file: usize, sheet: Sheet)
    requires
        spec_orderly(h),
    ensures
        spec_orderly(spec_record_sheet(h, file, sheet)),
{
    let name = sheet.name@;
    let sheets = spec_with_sheet(h.sheets, name);
    let at = spec_sheet_place(sheets, name);
    let after = spec_record_sheet(h, file, sheet);
    lemma_known_has_entry(h.sheets, name);
    lemma_add_known_no_twins(h.known_sheets, name);
    lemma_sheet_place(h.sheets, name);
    lemma_sheet_place(sheets, name);
    if spec_sheet_place(h.sheets, name) >= h.sheets.len() {
        assert(sheets[sheets.len() - 1].name == name);
    }
    assert(0 <= at < sheets.len());
    assert(spec_sheet_names(sheets) =~= spec_add_known(h.known_sheets, name));
    assert forall|s: int| 0 <= s < sheets.len() implies spec_entry_orderly(
        #[trigger] sheets[s],
    ) by {
        if s < h.sheets.len() {
            assert(sheets[s] == h.sheets[s]);
        }
    }
    let places = spec_usable_rows(sheet.rows@, sheet.rows@.len());
    if places.len() > 0 {
        lemma_record_cells_orderly(
            sheets[at],
            file,
            sheet.rows@,
            places.skip(1),
            sheet.rows@[places[0] as int]@,
            sheet.rows@[places[0] as int]@.len(),
        );
    }
    assert(after.sheets[at].name == sheets[at].name);
    assert(spec_sheet_names(after.sheets) =~= spec_sheet_names(sheets)) by {
        assert forall|s: int| 0 <= s < sheets.len() implies spec_sheet_names(after.sheets)[s]
            == spec_sheet_names(sheets)[s] by {
            if s != at {
                assert(after.sheets[s] == sheets[s]);
            }
        }
    }
    assert forall|s: int| 0 <= s < after.sheets.len() implies spec_entry_orderly(
        #[trigger] after.sheets[s],
    ) by {
        if s != at {
            assert(after.sheets[s] == sheets[s]);
        }
    }
}

/// Reading the sheets of a file leaves the headers orderly.
pub proof fn lemma_record_book_orderly(h: HeadersView, file: usize, sheets: Seq<Sheet>, n: nat)
    requires
        spec_orderly(h),
        n <= sheets.len(),
    ensures
        spec_orderly(spec_record_book(h, file, sheets, n)),
    decreases n,
{
    if n > 0 {
        lemma_record_book_orderly(h, file, sheets, (n - 1) as nat);
        if spec_sheet_counts(sheets, n - 1) {
            lemma_record_sheet_orderly(
                spec_record_book(h, file, sheets, (n - 1) as nat),
                file,
                sheets[n - 1],
            );
        }
    }
}

/// The headers of a group hold every sheet, every file of a sheet and
/// every header of a file once, and every known sheet has its entry.
pub proof fn lemma_extract_orderly(books: Seq<Book>, n: nat)
    requires
        n <= books.len(),
    ensures
        spec_orderly(spec_extract(books, n)),
    decreases n,
{
    if n > 0 {
        lemma_extract_orderly(books, (n - 1) as nat);
        lemma_record_book_orderly(
            spec_extract(books, (n - 1) as nat),
            (n - 1) as usize,
            books[n - 1].sheets@,
            books[n - 1].sheets@.len(),
        );
    } else {
        assert(spec_sheet_names(spec_extract(books, 0).sheets) =~= Seq::empty());
    }
}

/// Whether `longer` begins with the entries' names of `sheets`, in order.
pub open spec fn spec_names_kept(sheets: Seq<SheetHeadersView>, longer: Seq<SheetHeadersView>) -> bool {
    sheets.len() <= longer.len() && forall|i: int|
        0 <= i < sheets.len() ==> (#[trigger] longer[i]).name == sheets[i].name
}

/// Names that are the same once case and spacing are set aside have the
/// same entry.
pub proof fn lemma_sheet_place_alike(sheets: Seq<SheetHeadersView>, a: Seq<char>, b: Seq<char>)
    requires
        spec_normal(a) == spec_normal(b),
    ensures
        spec_sheet_place(sheets, a) == spec_sheet_place(sheets, b),
    decreases sheets.len(),
{
    if sheets.len() > 0 && spec_normal(sheets[0].name) != spec_normal(a) {
        lemma_sheet_place_alike(sheets.drop_first(), a, b);
    }
}

/// A name that has an entry keeps having one where entries are added.
pub proof fn lemma_entry_stays(
    sheets: Seq<SheetHeadersView>,
    longer: Seq<SheetHeadersView>,
    name: Seq<char>,
)
    requires
        spec_names_kept(sheets, longer),
        spec_sheet_place(sheets, name) < sheets.len(),
    ensures
        spec_sheet_place(longer, name) < longer.len(),
{
    lemma_sheet_place(sheets, name);
    lemma_sheet_place(longer, name);
    let at = spec_sheet_place(sheets, name);
    assert(longer[at].name == sheets[at].name);
}

/// Reading a sheet keeps the entries that there were, under their names,
/// and leaves the sheet with an entry.
pub proof fn lemma_record_sheet_entries(h: HeadersView, file: usize, sheet: Sheet)
    ensures
        spec_names_kept(h.sheets, spec_record_sheet(h, file, sheet).sheets),
        spec_sheet_place(spec_record_sheet(h, file, sheet).sheets, sheet.name@)
            < spec_record_sheet(h, file, sheet).sheets.len(),
{
    let name = sheet.name@;
    let sheets = spec_with_sheet(h.sheets, name);
    let at = spec_sheet_place(sheets, name);
    let after = spec_record_sheet(h, file, sheet);
    lemma_sheet_place(h.sheets, name);
    lemma_sheet_place(sheets, name);
    if spec_sheet_place(h.sheets, name) >= h.sheets.len() {
        assert(sheets[sheets.len() - 1].name == name);
    }
    assert(0 <= at < sheets.len());
    let places = spec_usable_rows(sheet.rows@, sheet.rows@.len());
    if places.len() > 0 {
        lemma_record_cells_name(
            sheets[at],
            file,
            sheet.rows@,
            places.skip(1),
            sheet.rows@[places[0] as int]@,
            sheet.rows@[places[0] as int]@.len(),
        );
    }
    assert(after.sheets[at].name == sheets[at].name);
    assert forall|i: int| 0 <= i < sheets.len() implies (#[trigger] after.sheets[i]).name
        == sheets[i].name by {
        if i != at {
            assert(after.sheets[i] == sheets[i]);
        }
    }
    assert forall|i: int| 0 <= i < h.sheets.len() implies (#[trigger] after.sheets[i]).name
        == h.sheets[i].name by {
        assert(sheets[i] == h.sheets[i]);
    }
    assert(spec_names_kept(sheets, after.sheets));
    lemma_entry_stays(sheets, after.sheets, name);
}

/// Reading header cells leaves the entry of a sheet under its name.
pub proof fn lemma_record_cells_name(
    entry: SheetHeadersView,
    file: usize,
    rows: Seq<Vec<Cell>>,
    data: Seq<usize>,
    header: Seq<Cell>,
    n: nat,
)
    ensures
        spec_record_cells(entry, file, rows, data, header, n).name == entry.name,
    decreases n,
{
    if n > 0 {
        lemma_record_cells_name(entry, file, rows, data, header, (n - 1) as nat);
    }
}

/// Reading the first `n` sheets of a file keeps the entries that there
/// were, and leaves each of those sheets with an entry, whether it counts
/// or is named like a sheet before it.
pub proof fn lemma_record_book_entries(h: HeadersView, file: usize, sheets: Seq<Sheet>, n: nat)
    requires
        n <= sheets.len(),
    ensures
        spec_names_kept(h.sheets, spec_record_book(h, file, sheets, n).sheets),
        forall|i: int|
            0 <= i < n ==> spec_sheet_place(
                spec_record_book(h, file, sheets, n).sheets,
                (#[trigger] sheets[i]).name@,
            ) < spec_record_book(h, file, sheets, n).sheets.len(),
    decreases n,
{
    if n > 0 {
        let before = spec_record_book(h, file, sheets, (n - 1) as nat);
        let after = spec_record_book(h, file, sheets, n);
        lemma_record_book_entries(h, file, sheets, (n - 1) as nat);
        if spec_sheet_counts(sheets, n - 1) {
            lemma_record_sheet_entries(before, file, sheets[n - 1]);
        }
        assert(spec_names_kept(before.sheets, after.sheets));
        assert forall|i: int| 0 <= i < n implies spec_sheet_place(
            after.sheets,
            (#[trigger] sheets[i]).name@,
        ) < after.sheets.len() by {
            if i < n - 1 {
                lemma_entry_stays(before.sheets, after.sheets, sheets[i].name@);
            } else if !spec_sheet_counts(sheets, n - 1) {
                lemma_sheet_named(sheets, sheets[i].name@, 0);
                let k = spec_sheet_named(sheets, sheets[i].name@, 0)->0;
                assert(k < i);
                assert(spec_sheet_place(before.sheets, sheets[k].name@) < before.sheets.len());
                lemma_sheet_place_alike(after.sheets, sheets[k].name@, sheets[i].name@);
                lemma_entry_stays(before.sheets, after.sheets, sheets[k].name@);
            }
        }
    }
}

/// In the headers of a group every sheet of every file has its entry, be
/// its name spelled as in the entry or in another case or spacing. The
/// table of the entry takes, of each file, the first sheet of that name.
pub proof fn lemma_every_sheet_has_entry(books: Seq<Book>, n: nat)
    requires
        n <= books.len(),
    ensures
        forall|f: int, i: int|
            0 <= f < n && 0 <= i < books[f].sheets@.len() ==> spec_sheet_place(
                spec_extract(books, n).sheets,
                (#[trigger] books[f].sheets@[i]).name@,
            ) < spec_extract(books, n).sheets.len(),
    decreases n,
{
    if n > 0 {
        let before = spec_extract(books, (n - 1) as nat);
        let after = spec_extract(books, n);
        let last = books[n - 1].sheets@;
        lemma_every_sheet_has_entry(books, (n - 1) as nat);
        lemma_record_book_entries(before, (n - 1) as usize, last, last.len());
        assert forall|f: int, i: int|
            0 <= f < n && 0 <= i < books[f].sheets@.len() implies spec_sheet_place(
            after.sheets,
            (#[trigger] books[f].sheets@[i]).name@,
        ) < after.sheets.len() by {
            if f < n - 1 {
                lemma_entry_stays(before.sheets, after.sheets, books[f].sheets@[i].name@);
            }
        }
    }
}

/// The entry of a sheet that counts leads back to that sheet: looked up in
/// the file under the name of the entry, the first sheet found is the sheet
/// itself, however the entry spells the name.
pub proof fn lemma_entry_finds_its_sheet(entries: Seq<SheetHeadersView>, sheets: Seq<Sheet>, i: int)
    requires
        0 <= i < sheets.len(),
        spec_sheet_counts(sheets, i),
        spec_sheet_place(entries, sheets[i].name@) < entries.len(),
    ensures
        spec_sheet_named(
            sheets,
            entries[spec_sheet_place(entries, sheets[i].name@)].name,
            0,
        ) == Some(i),
{
    let at = spec_sheet_place(entries, sheets[i].name@);
    lemma_sheet_place(entries, sheets[i].name@);
    lemma_sheet_named_alike(sheets, entries[at].name, sheets[i].name@, 0);
}

} // verus!
