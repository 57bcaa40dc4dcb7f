//! The header signature of a file: for each sheet that is not set aside, the
//! abbreviations of the texts in its first titled row.

use crate::sheets::{cell_text, spec_cell_text, spec_usable, Book, Cell, Sheet};
use crate::signature::{spec_signature, spec_views};
use crate::text::{
    char_lowercase, contains_text, from_chars, get_words, is_blank, lowercase, spec_contains,
    spec_is_blank, spec_lower_first, spec_lowercase, spec_starts_with, spec_texts, spec_trim,
    spec_words, starts_with, to_chars, trim,
};
use crate::token::Token;
use vstd::prelude::*;

verus! {

/// How many words of a header cell go into its abbreviation.
pub const TOKEN_WORDS: usize = 3;

/// Whether `c` is a letter, as `char::is_alphabetic` decides it.
pub uninterp spec fn spec_is_alphabetic(c: char) -> bool;

/// Calls `char::is_alphabetic`.
#[verifier::external_body]
fn is_alphabetic(c: char) -> (r: bool)
    ensures
        r == spec_is_alphabetic(c),
{
    c.is_alphabetic()
}

/// Whether a sheet is set aside when a file's signature is taken, by its
/// name in lower case and without the whitespace around it: sheets of
/// drop-down values, glossaries, lists of acronyms and dictionaries, sheets
/// with a default name where the file has more than one sheet, catalogues,
/// and sheets of data.
pub open spec fn spec_is_excluded(name: Seq<char>, sheet_count: nat) -> bool {
    let lower = spec_lowercase(spec_trim(name));
    spec_starts_with(lower, "desp"@) || spec_contains(lower, "glosario"@) || spec_contains(
        lower,
        "siglas"@,
    ) || spec_contains(lower, "diccionario"@) || (spec_contains(lower, "hoja"@) && sheet_count > 1)
        || (spec_contains(lower, "logo"@) && spec_contains(lower, "cat"@)) || spec_contains(
        lower,
        "datos"@,
    )
}

/// Whether a sheet is set aside when a file's signature is taken.
pub fn is_excluded(name: &str, sheet_count: usize) -> (r: bool)
    ensures
        r == spec_is_excluded(name@, sheet_count as nat),
{
    let trimmed = trim(name);
    let lower = lowercase(trimmed.as_str());
    let chars = to_chars(lower.as_str());
    starts_with(&chars, &to_chars("desp")) || contains_text(&chars, &to_chars("glosario"))
        || contains_text(&chars, &to_chars("siglas")) || contains_text(
        &chars,
        &to_chars("diccionario"),
    ) || (contains_text(&chars, &to_chars("hoja")) && sheet_count > 1) || (contains_text(
        &chars,
        &to_chars("logo"),
    ) && contains_text(&chars, &to_chars("cat"))) || contains_text(&chars, &to_chars("datos"))
}

/// Whether a row can be a header row: its first cell is not empty and has a
/// text that is more than whitespace.
pub open spec fn spec_titled(row: Seq<Cell>) -> bool {
    spec_usable(row) && spec_cell_text(row[0]) is Some && !spec_is_blank(spec_cell_text(row[0])->0)
}

/// Whether a row can be a header row.
pub fn titled(row: &Vec<Cell>) -> (r: bool)
    ensures
        r == spec_titled(row@),
{
    if row.len() == 0 {
        return false;
    }
    match &row[0] {
        Cell::Empty => false,
        first => match cell_text(first) {
            Some(t) => !is_blank(t.as_str()),
            None => false,
        },
    }
}

/// The place of the first titled row from `from` on, if there is one.
pub open spec fn spec_first_titled(rows: Seq<Vec<Cell>>, from: int) -> Option<int>
    decreases rows.len() - from,
{
    if from < 0 || from >= rows.len() {
        None
    } else if spec_titled(rows[from]@) {
        Some(from)
    } else {
        spec_first_titled(rows, from + 1)
    }
}

/// The place of the first titled row, if there is one.
pub fn first_titled(rows: &Vec<Vec<Cell>>) -> (r: Option<usize>)
    ensures
        match r {
            Some(i) => spec_first_titled(rows@, 0) == Some(i as int) && i < rows.len(),
            None => spec_first_titled(rows@, 0) is None,
        },
{
    let mut i: usize = 0;
    while i < rows.len()
        invariant
            i <= rows.len(),
            spec_first_titled(rows@, 0) == spec_first_titled(rows@, i as int),
        decreases rows.len() - i,
    {
        if titled(&rows[i]) {
            return Some(i);
        }
        i += 1;
    }
    None
}

/// The first letter of `word`, if it has one.
pub open spec fn spec_first_letter(word: Seq<char>) -> Option<char>
    decreases word.len(),
{
    if word.len() == 0 {
        None
    } else if spec_is_alphabetic(word[0]) {
        Some(word[0])
    } else {
        spec_first_letter(word.drop_first())
    }
}

/// What a word gives to an abbreviation: its first letter in lower case,
/// by the first character of the letter's lowercase mapping. A word without
/// a letter gives nothing.
pub open spec fn spec_initial(word: Seq<char>) -> Seq<char> {
    match spec_first_letter(word) {
        Some(c) => spec_lower_first(c),
        None => Seq::empty(),
    }
}

/// The words of a header text that go into its abbreviation: its first
/// three words, or all its words where it has fewer.
pub open spec fn spec_leading_words(text: Seq<char>) -> Seq<Seq<char>> {
    let words = spec_words(spec_trim(text));
    if words.len() < TOKEN_WORDS {
        words
    } else {
        words.take(TOKEN_WORDS as int)
    }
}

/// The abbreviation of a header text: what its leading words give, one
/// after the other.
pub open spec fn spec_token(text: Seq<char>) -> Seq<char> {
    spec_leading_words(text).map_values(|w: Seq<char>| spec_initial(w)).flatten()
}

/// The abbreviations of the texts among `header`, left to right. Cells of
/// another kind give none.
pub open spec fn spec_fingerprint(header: Seq<Cell>) -> Seq<Seq<char>>
    decreases header.len(),
{
    if header.len() == 0 {
        Seq::empty()
    } else {
        match header.last() {
            Cell::Text(t) => spec_fingerprint(header.drop_last()).push(spec_token(t@)),
            _ => spec_fingerprint(header.drop_last()),
        }
    }
}

/// What a word gives to an abbreviation, if it gives anything.
pub fn initial(word: &str) -> (r: Option<char>)
    ensures
        spec_initial(word@) == match r {
            Some(c) => seq![c],
            None => Seq::empty(),
        },
{
    let chars = to_chars(word);
    let mut i: usize = 0;
    assert(chars@.skip(0) == chars@);
    while i < chars.len()
        invariant
            i <= chars.len(),
            chars@ == word@,
            spec_first_letter(chars@) == spec_first_letter(chars@.skip(i as int)),
        decreases chars.len() - i,
    {
        assert(chars@.skip(i as int)[0] == chars@[i as int]);
        if is_alphabetic(chars[i]) {
            let lower = char_lowercase(chars[i]);
            return Some(lower[0]);
        }
        assert(chars@.skip(i as int).drop_first() == chars@.skip(i + 1));
        i += 1;
    }
    None
}

/// The abbreviation of a header text.
pub fn token(text: &str) -> (r: Token)
    ensures
        r@ == spec_token(text@),
{
    let trimmed = trim(text);
    let words = get_words(trimmed.as_str());
    let n: usize = if words.len() < TOKEN_WORDS {
        words.len()
    } else {
        TOKEN_WORDS
    };
    let ghost leading = spec_leading_words(text@);
    let ghost parts = leading.map_values(|w: Seq<char>| spec_initial(w));
    let mut initials: Vec<char> = Vec::new();
    let mut i: usize = 0;
    assert(parts.take(0) == Seq::<Seq<char>>::empty());
    while i < n
        invariant
            i <= n <= words.len(),
            n == leading.len(),
            spec_texts(words@) == spec_words(spec_trim(text@)),
            leading == spec_leading_words(text@),
            parts == leading.map_values(|w: Seq<char>| spec_initial(w)),
            initials@ == parts.take(i as int).flatten(),
        decreases n - i,
    {
        assert(spec_texts(words@)[i as int] == words@[i as int]@);
        assert(leading[i as int] == spec_texts(words@)[i as int]);
        let ghost before = initials@;
        match initial(words[i].as_str()) {
            Some(c) => {
                initials.push(c);
            },
            None => {},
        }
        proof {
            assert(initials@ =~= before + parts[i as int]);
            assert(parts.take(i + 1) == parts.take(i as int).push(parts[i as int]));
            parts.take(i as int).lemma_flatten_push(parts[i as int]);
        }
        i += 1;
    }
    assert(parts.take(i as int) == parts);
    let joined = from_chars(&initials, 0, initials.len());
    assert(initials@.subrange(0, initials.len() as int) == initials@);
    Token { text: joined }
}

/// The abbreviations of the texts among `header`, left to right.
pub fn fingerprint(header: &Vec<Cell>) -> (tokens: Vec<Token>)
    ensures
        spec_views(tokens@) == spec_fingerprint(header@),
{
    let mut tokens: Vec<Token> = Vec::new();
    let mut i: usize = 0;
    assert(header@.take(0) == Seq::<Cell>::empty());
    assert(spec_views(tokens@) =~= Seq::empty());
    while i < header.len()
        invariant
            i <= header.len(),
            spec_views(tokens@) == spec_fingerprint(header@.take(i as int)),
        decreases header.len() - i,
    {
        let ghost before = tokens@;
        assert(header@.take(i + 1).drop_last() == header@.take(i as int));
        assert(header@.take(i + 1).last() == header@[i as int]);
        match &header[i] {
            Cell::Text(t) => {
                let abbreviation = token(t.as_str());
                tokens.push(abbreviation);
                assert(spec_views(tokens@) =~= spec_views(before).push(spec_token(t@)));
            },
            _ => {},
        }
        i += 1;
    }
    assert(header@.take(i as int) == header@);
    tokens
}

/// What one sheet adds to the signature of a file with `sheet_count`
/// sheets: the abbreviations of its first titled row, unless the sheet is
/// set aside or has no such row.
pub open spec fn spec_sheet_signature(sheet: Sheet, sheet_count: nat) -> Seq<Seq<Seq<char>>> {
    if spec_is_excluded(sheet.name@, sheet_count) {
        Seq::empty()
    } else {
        match spec_first_titled(sheet.rows@, 0) {
            Some(r) => seq![spec_fingerprint(sheet.rows@[r]@)],
            None => Seq::empty(),
        }
    }
}

/// The signature of the first `n` of the sheets of a file, in reading order.
pub open spec fn spec_file_signature(sheets: Seq<Sheet>, n: nat) -> Seq<Seq<Seq<char>>>
    decreases n,
{
    if n == 0 {
        Seq::empty()
    } else {
        spec_file_signature(sheets, (n - 1) as nat) + spec_sheet_signature(
            sheets[n - 1],
            sheets.len(),
        )
    }
}

/// The header signature of a file: for each of its sheets in reading order
/// that is not set aside and has a titled row, the abbreviations of the
/// texts in the first such row.
pub fn headers_from_file(book: &Book) -> (res: Vec<Vec<Token>>)
    ensures
        spec_signature(res@) == spec_file_signature(book.sheets@, book.sheets@.len()),
{
    let mut res: Vec<Vec<Token>> = Vec::new();
    let mut i: usize = 0;
    assert(spec_signature(res@) =~= Seq::empty());
    while i < book.sheets.len()
        invariant
            i <= book.sheets.len(),
            spec_signature(res@) == spec_file_signature(book.sheets@, i as nat),
        decreases book.sheets.len() - i,
    {
        let sheet = &book.sheets[i];
        let ghost before = res@;
        if !is_excluded(sheet.name.as_str(), book.sheets.len()) {
            match first_titled(&sheet.rows) {
                Some(r) => {
                    let tokens = fingerprint(&sheet.rows[r]);
                    res.push(tokens);
                    assert(spec_signature(res@) =~= spec_signature(before) + seq![
                        spec_fingerprint(sheet.rows@[r as int]@),
                    ]);
                },
                None => {
                    assert(spec_signature(before) + Seq::<Seq<Seq<char>>>::empty()
                        =~= spec_signature(before));
                },
            }
        } else {
            assert(spec_signature(before) + Seq::<Seq<Seq<char>>>::empty() =~= spec_signature(
                before,
            ));
        }
        i += 1;
    }
    res
}

} // verus!
