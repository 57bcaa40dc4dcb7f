//! Words of a text: splitting on separators, trimming, joining with single
//! spaces, and the first letters of words.
//!
//! Every contract speaks of a text as its sequence of characters.

use vstd::prelude::*;
use vstd::string::*;

verus! {

/// Whether `c` is whitespace, as `char::is_whitespace` decides it.
pub uninterp spec fn spec_is_whitespace(c: char) -> bool;

/// The lowercase mapping of `c`, as `char::to_lowercase` yields it.
pub uninterp spec fn spec_char_lowercase(c: char) -> Seq<char>;

/// The lowercase form of a whole text, as `str::to_lowercase` returns it.
pub uninterp spec fn spec_lowercase(s: Seq<char>) -> Seq<char>;

/// Calls `char::is_whitespace`. Nothing is claimed of the answer but that it
/// depends on the character alone.
#[verifier::external_body]
fn is_whitespace(c: char) -> (r: bool)
    ensures
        r == spec_is_whitespace(c),
{
    c.is_whitespace()
}

/// Calls `char::to_lowercase` and gathers the characters it yields, in order.
/// The mapping of a character is one character or more, never none.
#[verifier::external_body]
pub(crate) fn char_lowercase(c: char) -> (r: Vec<char>)
    ensures
        r@ == spec_char_lowercase(c),
        r@.len() > 0,
{
    c.to_lowercase().collect()
}

/// Calls `str::to_lowercase`.
#[verifier::external_body]
fn str_lowercase(s: &str) -> (r: String)
    ensures
        r@ == spec_lowercase(s@),
{
    s.to_lowercase()
}

/// Calls `String::push`, which appends one character at the end.
#[verifier::external_body]
fn push_char(s: &mut String, c: char)
    ensures
        final(s)@ == old(s)@.push(c),
{
    s.push(c)
}

/// The characters of `s`, in order.
pub fn to_chars(s: &str) -> (v: Vec<char>)
    ensures
        v@ == s@,
{
    let mut v: Vec<char> = Vec::new();
    for c in it: s.chars()
        invariant
            v@ == it.seq().take(it.index() as int),
            it.seq() == s@,
    {
        v.push(c);
    }
    v
}

/// The text made of the characters `v[from..to]`.
pub fn from_chars(v: &Vec<char>, from: usize, to: usize) -> (s: String)
    requires
        from <= to <= v.len(),
    ensures
        s@ == v@.subrange(from as int, to as int),
{
    let mut s = String::new();
    let mut i: usize = from;
    while i < to
        invariant
            from <= i <= to <= v.len(),
            s@ == v@.subrange(from as int, i as int),
        decreases to - i,
    {
        push_char(&mut s, v[i]);
        i += 1;
        assert(v@.subrange(from as int, i as int) == v@.subrange(from as int, i - 1).push(
            v@[i - 1],
        ));
    }
    s
}

/// The lowercase form of `s`.
pub fn lowercase(s: &str) -> (r: String)
    ensures
        r@ == spec_lowercase(s@),
{
    str_lowercase(s)
}

/// A word separator: space, line feed, tab or carriage return.
pub open spec fn spec_is_separator(c: char) -> bool {
    c == ' ' || c == '\n' || c == '\t' || c == '\r'
}

/// Whether `c` is a word separator.
pub fn is_separator(c: char) -> (r: bool)
    ensures
        r == spec_is_separator(c),
{
    c == ' ' || c == '\n' || c == '\t' || c == '\r'
}

/// `s` without its leading whitespace.
pub open spec fn spec_trim_start(s: Seq<char>) -> Seq<char>
    decreases s.len(),
{
    if s.len() > 0 && spec_is_whitespace(s[0]) {
        spec_trim_start(s.drop_first())
    } else {
        s
    }
}

/// `s` without its trailing whitespace.
pub open spec fn spec_trim_end(s: Seq<char>) -> Seq<char>
    decreases s.len(),
{
    if s.len() > 0 && spec_is_whitespace(s.last()) {
        spec_trim_end(s.drop_last())
    } else {
        s
    }
}

/// `s` without leading and trailing whitespace.
pub open spec fn spec_trim(s: Seq<char>) -> Seq<char> {
    spec_trim_end(spec_trim_start(s))
}

/// The bounds of the trimmed part of `v[from..to]`.
pub fn trim_bounds(v: &Vec<char>, from: usize, to: usize) -> (r: (usize, usize))
    requires
        from <= to <= v.len(),
    ensures
        from <= r.0 <= r.1 <= to,
        v@.subrange(r.0 as int, r.1 as int) == spec_trim(v@.subrange(from as int, to as int)),
{
    let ghost whole = v@.subrange(from as int, to as int);
    let mut i: usize = from;
    while i < to && is_whitespace(v[i])
        invariant
            from <= i <= to <= v.len(),
            whole == v@.subrange(from as int, to as int),
            spec_trim_start(whole) == spec_trim_start(v@.subrange(i as int, to as int)),
        decreases to - i,
    {
        assert(v@.subrange(i as int, to as int).drop_first() == v@.subrange(i + 1, to as int));
        i += 1;
    }
    let ghost front = v@.subrange(i as int, to as int);
    assert(spec_trim_start(whole) == front);
    let mut j: usize = to;
    while j > i && is_whitespace(v[j - 1])
        invariant
            from <= i <= j <= to <= v.len(),
            front == v@.subrange(i as int, to as int),
            spec_trim_end(front) == spec_trim_end(v@.subrange(i as int, j as int)),
        decreases j - i,
    {
        assert(v@.subrange(i as int, j as int).drop_last() == v@.subrange(i as int, j - 1));
        j -= 1;
    }
    (i, j)
}

/// `s` without leading and trailing whitespace.
pub fn trim(s: &str) -> (r: String)
    ensures
        r@ == spec_trim(s@),
{
    let v = to_chars(s);
    let (i, j) = trim_bounds(&v, 0, v.len());
    assert(v@.subrange(0, v.len() as int) == v@);
    from_chars(&v, i, j)
}

/// Whether `s` is nothing but whitespace.
pub open spec fn spec_is_blank(s: Seq<char>) -> bool {
    spec_trim(s).len() == 0
}

/// Whether `s` is nothing but whitespace.
pub fn is_blank(s: &str) -> (r: bool)
    ensures
        r == spec_is_blank(s@),
{
    let v = to_chars(s);
    let (i, j) = trim_bounds(&v, 0, v.len());
    assert(v@.subrange(0, v.len() as int) == v@);
    i == j
}

/// The place of the first separator in `s`, or its length where it has none.
pub open spec fn spec_piece_len(s: Seq<char>) -> int
    decreases s.len(),
{
    if s.len() == 0 || spec_is_separator(s[0]) {
        0
    } else {
        1 + spec_piece_len(s.drop_first())
    }
}

/// What a piece between two separators contributes: itself, trimmed, unless
/// nothing is left of it.
pub open spec fn spec_piece_words(piece: Seq<char>) -> Seq<Seq<char>> {
    if spec_is_blank(piece) {
        Seq::empty()
    } else {
        seq![spec_trim(piece)]
    }
}

/// The words of `s`: the pieces between separators, each trimmed, the empty
/// ones left out.
pub open spec fn spec_words(s: Seq<char>) -> Seq<Seq<char>>
    decreases s.len(),
{
    let k = spec_piece_len(s);
    if s.len() == 0 {
        Seq::empty()
    } else if 0 <= k < s.len() {
        spec_piece_words(s.take(k)) + spec_words(s.skip(k + 1))
    } else {
        spec_piece_words(s)
    }
}

/// A text that starts with `k` characters that are no separators, followed by
/// a separator or by nothing, has its first piece end at `k`.
pub proof fn lemma_piece_len_is(s: Seq<char>, k: int)
    requires
        0 <= k <= s.len(),
        forall|i: int| 0 <= i < k ==> !spec_is_separator(#[trigger] s[i]),
        k < s.len() ==> spec_is_separator(s[k]),
    ensures
        spec_piece_len(s) == k,
    decreases s.len(),
{
    if k == 0 {
    } else {
        assert(!spec_is_separator(s[0]));
        let r = s.drop_first();
        assert forall|i: int| 0 <= i < k - 1 implies !spec_is_separator(#[trigger] r[i]) by {
            assert(r[i] == s[i + 1]);
        }
        lemma_piece_len_is(r, k - 1);
    }
}

/// Trimming takes characters away at both ends only: what is left stands in
/// the text from some place to some place.
pub proof fn lemma_trim_is_part(s: Seq<char>) -> (r: (int, int))
    ensures
        0 <= r.0 <= r.1 <= s.len(),
        spec_trim(s) == s.subrange(r.0, r.1),
{
    let a = lemma_trim_start_is_end(s);
    let front = s.skip(a);
    let b = lemma_trim_end_is_start(front);
    assert(front.take(b) == s.subrange(a, a + b));
    (a, a + b)
}

/// What is left when leading whitespace is taken away is an end of the text.
proof fn lemma_trim_start_is_end(s: Seq<char>) -> (a: int)
    ensures
        0 <= a <= s.len(),
        spec_trim_start(s) == s.skip(a),
    decreases s.len(),
{
    if s.len() > 0 && spec_is_whitespace(s[0]) {
        let a = lemma_trim_start_is_end(s.drop_first());
        assert(s.drop_first().skip(a) == s.skip(a + 1));
        a + 1
    } else {
        assert(s.skip(0) == s);
        0
    }
}

/// What is left when trailing whitespace is taken away is a beginning of
/// the text.
proof fn lemma_trim_end_is_start(s: Seq<char>) -> (b: int)
    ensures
        0 <= b <= s.len(),
        spec_trim_end(s) == s.take(b),
    decreases s.len(),
{
    if s.len() > 0 && spec_is_whitespace(s.last()) {
        let b = lemma_trim_end_is_start(s.drop_last());
        assert(s.drop_last().take(b) == s.take(b));
        b
    } else {
        assert(s.take(s.len() as int) == s);
        s.len() as int
    }
}

/// A word is not empty and holds no separator.
pub open spec fn spec_is_word(w: Seq<char>) -> bool {
    w.len() > 0 && forall|k: int| 0 <= k < w.len() ==> !spec_is_separator(#[trigger] w[k])
}

/// The words of a text are words: none is empty, none holds a separator.
pub proof fn lemma_words_are_words(s: Seq<char>)
    ensures
        forall|i: int| 0 <= i < spec_words(s).len() ==> spec_is_word(#[trigger] spec_words(s)[i]),
    decreases s.len(),
{
    if s.len() > 0 {
        let k = spec_piece_len(s);
        lemma_piece_len_parts(s);
        let piece = if 0 <= k < s.len() { s.take(k) } else { s };
        let first = spec_piece_words(piece);
        assert forall|i: int| 0 <= i < first.len() implies spec_is_word(#[trigger] first[i]) by {
            let (a, b) = lemma_trim_is_part(piece);
            assert forall|j: int| 0 <= j < first[i].len() implies !spec_is_separator(
                #[trigger] first[i][j],
            ) by {
                assert(first[i][j] == piece[a + j]);
                assert(piece[a + j] == s[a + j]);
            }
        }
        if 0 <= k < s.len() {
            let rest = spec_words(s.skip(k + 1));
            lemma_words_are_words(s.skip(k + 1));
            assert forall|i: int| 0 <= i < spec_words(s).len() implies spec_is_word(
                #[trigger] spec_words(s)[i],
            ) by {
                if i < first.len() {
                    assert(spec_words(s)[i] == first[i]);
                } else {
                    assert(spec_words(s)[i] == rest[i - first.len()]);
                }
            }
        }
    }
}

/// Before the end of the first piece of a text there is no separator.
pub proof fn lemma_piece_len_parts(s: Seq<char>)
    ensures
        0 <= spec_piece_len(s) <= s.len(),
        forall|i: int| 0 <= i < spec_piece_len(s) ==> !spec_is_separator(#[trigger] s[i]),
        spec_piece_len(s) < s.len() ==> spec_is_separator(s[spec_piece_len(s)]),
    decreases s.len(),
{
    if s.len() == 0 || spec_is_separator(s[0]) {
    } else {
        lemma_piece_len_parts(s.drop_first());
        let r = s.drop_first();
        assert forall|i: int| 0 <= i < spec_piece_len(s) implies !spec_is_separator(
            #[trigger] s[i],
        ) by {
            if i > 0 {
                assert(s[i] == r[i - 1]);
            }
        }
    }
}

/// The views of the texts in `v`, in order.
pub open spec fn spec_texts(v: Seq<String>) -> Seq<Seq<char>> {
    v.map_values(|w: String| w@)
}

/// The words of `cadena`: its pieces between spaces, line feeds, tabs and
/// carriage returns, each without the whitespace around it, the empty ones
/// left out.
pub fn get_words(cadena: &str) -> (words: Vec<String>)
    ensures
        spec_texts(words@) == spec_words(cadena@),
{
    let v = to_chars(cadena);
    let mut words: Vec<String> = Vec::new();
    let mut start: usize = 0;
    let mut i: usize = 0;
    assert(v@.skip(0) == v@);
    while i < v.len()
        invariant
            start <= i <= v.len(),
            forall|k: int| start <= k < i ==> !spec_is_separator(#[trigger] v@[k]),
            spec_words(v@) == spec_texts(words@) + spec_words(v@.skip(start as int)),
        decreases v.len() - i,
    {
        if is_separator(v[i]) {
            let ghost rest = v@.skip(start as int);
            proof {
                assert forall|k: int| 0 <= k < i - start implies !spec_is_separator(
                    #[trigger] rest[k],
                ) by {
                    assert(rest[k] == v@[start + k]);
                }
                lemma_piece_len_is(rest, i - start);
                assert(rest.take(i - start) == v@.subrange(start as int, i as int));
                assert(rest.skip(i - start + 1) == v@.skip(i + 1));
            }
            let (a, b) = trim_bounds(&v, start, i);
            if a < b {
                let w = from_chars(&v, a, b);
                let ghost before = words@;
                words.push(w);
                assert(spec_texts(words@) == spec_texts(before) + seq![w@]);
            }
            start = i + 1;
        }
        i += 1;
    }
    let ghost rest = v@.skip(start as int);
    proof {
        assert forall|k: int| 0 <= k < i - start implies !spec_is_separator(#[trigger] rest[k]) by {
            assert(rest[k] == v@[start + k]);
        }
        lemma_piece_len_is(rest, i - start);
        assert(rest == v@.subrange(start as int, i as int));
    }
    let (a, b) = trim_bounds(&v, start, i);
    if a < b {
        let w = from_chars(&v, a, b);
        let ghost before = words@;
        words.push(w);
        assert(spec_texts(words@) == spec_texts(before) + seq![w@]);
    }
    words
}

/// The text that holds one space.
pub open spec fn spec_space() -> Seq<char> {
    seq![' ']
}

/// Each of `ws` with a space before it.
pub open spec fn spec_spaced(ws: Seq<Seq<char>>) -> Seq<Seq<char>>
    decreases ws.len(),
{
    if ws.len() == 0 {
        Seq::empty()
    } else {
        seq![spec_space(), ws[0]] + spec_spaced(ws.drop_first())
    }
}

/// `ws` with a space between every two neighbours.
pub open spec fn spec_space_join(ws: Seq<Seq<char>>) -> Seq<Seq<char>> {
    if ws.len() == 0 {
        Seq::empty()
    } else {
        seq![ws[0]] + spec_spaced(ws.drop_first())
    }
}

/// The words of `s` in one text, with single spaces between them.
pub open spec fn spec_sanitized(s: Seq<char>) -> Seq<char> {
    spec_space_join(spec_words(s)).flatten()
}

/// Hands out texts one by one with a space between every two of them.
pub struct SpaceJoiner {
    words: Vec<String>,
    position: usize,
    next_is_space: bool,
}

impl SpaceJoiner {
    #[verifier::type_invariant]
    closed spec fn well_formed(&self) -> bool {
        self.position <= self.words.len()
    }

    /// What is still to be handed out, in order.
    pub closed spec fn remaining(&self) -> Seq<Seq<char>> {
        let rest = spec_texts(self.words@).skip(self.position as int);
        if self.next_is_space {
            spec_space_join(rest)
        } else {
            spec_spaced(rest)
        }
    }

    /// The next item, or `None` once nothing remains.
    pub fn next(&mut self) -> (item: Option<String>)
        ensures
            old(self).remaining().len() == 0 ==> item is None && final(self).remaining().len() == 0,
            old(self).remaining().len() > 0 ==> item is Some && item->0@ == old(self).remaining()[0]
                && final(self).remaining() == old(self).remaining().drop_first(),
    {
        proof {
            use_type_invariant(&*self);
        }
        let ghost rest = spec_texts(self.words@).skip(self.position as int);
        self.next_is_space = !self.next_is_space;
        if self.next_is_space && self.position < self.words.len() {
            proof {
                reveal_strlit(" ");
                assert(" "@ == spec_space());
                assert((seq![spec_space(), rest[0]] + spec_spaced(rest.drop_first())).drop_first()
                    == seq![rest[0]] + spec_spaced(rest.drop_first()));
            }
            Some(" ".to_owned())
        } else if self.next_is_space {
            None
        } else if self.position < self.words.len() {
            let a = self.words[self.position].clone();
            self.position += 1;
            proof {
                assert(rest.drop_first() == spec_texts(self.words@).skip(self.position as int));
                assert((seq![rest[0]] + spec_spaced(rest.drop_first())).drop_first() == spec_spaced(
                    rest.drop_first(),
                ));
            }
            Some(a)
        } else {
            None
        }
    }

    /// Everything that remains, in order.
    pub fn collect(self) -> (items: Vec<String>)
        ensures
            spec_texts(items@) == self.remaining(),
    {
        let mut joiner = self;
        let mut items: Vec<String> = Vec::new();
        loop
            invariant
                self.remaining() == spec_texts(items@) + joiner.remaining(),
            ensures
                self.remaining() == spec_texts(items@),
            decreases joiner.remaining().len(),
        {
            let ghost before = items@;
            let ghost left = joiner.remaining();
            match joiner.next() {
                Some(item) => {
                    items.push(item);
                    assert(spec_texts(items@) == spec_texts(before) + seq![left[0]]);
                    assert(left == seq![left[0]] + left.drop_first());
                },
                None => {
                    assert(left + joiner.remaining() == left);
                    assert(spec_texts(items@) + left == spec_texts(items@));
                    break ;
                },
            }
        }
        items
    }
}

/// Puts a space between every two of `words`.
pub fn space_join(words: Vec<String>) -> (joiner: SpaceJoiner)
    ensures
        joiner.remaining() == spec_space_join(spec_texts(words@)),
{
    assert(spec_texts(words@).skip(0) == spec_texts(words@));
    SpaceJoiner { words, position: 0, next_is_space: true }
}

/// The words of `string` with a space between every two of them.
pub fn sanitize_spaces_iter(string: &str) -> (joiner: SpaceJoiner)
    ensures
        joiner.remaining() == spec_space_join(spec_words(string@)),
{
    space_join(get_words(string))
}

/// All of `items` in one text.
pub fn join_texts(items: &Vec<String>) -> (r: String)
    ensures
        r@ == spec_texts(items@).flatten(),
{
    let mut r = String::new();
    let mut i: usize = 0;
    assert(spec_texts(items@).take(0) == Seq::<Seq<char>>::empty());
    while i < items.len()
        invariant
            i <= items.len(),
            r@ == spec_texts(items@).take(i as int).flatten(),
        decreases items.len() - i,
    {
        r.append(items[i].as_str());
        proof {
            let t = spec_texts(items@);
            assert(t.take(i + 1) == t.take(i as int).push(t[i as int]));
            t.take(i as int).lemma_flatten_push(t[i as int]);
        }
        i += 1;
    }
    assert(spec_texts(items@).take(i as int) == spec_texts(items@));
    r
}

/// The words of `string` in one text, with single spaces between them.
pub fn sanitize_spaces(string: &str) -> (r: String)
    ensures
        r@ == spec_sanitized(string@),
{
    let items = sanitize_spaces_iter(string).collect();
    join_texts(&items)
}

/// The first character of the lowercase mapping of `c`, where it has one.
pub open spec fn spec_lower_first(c: char) -> Seq<char> {
    if spec_char_lowercase(c).len() > 0 {
        seq![spec_char_lowercase(c)[0]]
    } else {
        Seq::empty()
    }
}

/// `spec_lower_first` of each character of `s`, in order.
pub open spec fn spec_lower_firsts(s: Seq<char>) -> Seq<char> {
    s.map_values(|c: char| spec_lower_first(c)).flatten()
}

/// Of each of `ws` its first `n` characters, each by `spec_lower_first`.
pub open spec fn spec_n_chars(ws: Seq<Seq<char>>, n: nat) -> Seq<char> {
    ws.map_values(
        |w: Seq<char>| spec_lower_firsts(if n < w.len() { w.take(n as int) } else { w }),
    ).flatten()
}

/// How many characters are taken of `ws` where the first `n` of each are
/// taken, or all of one that has fewer.
pub open spec fn spec_taken(ws: Seq<Seq<char>>, n: nat) -> nat
    decreases ws.len(),
{
    if ws.len() == 0 {
        0
    } else {
        spec_taken(ws.drop_last(), n) + if n < ws.last().len() {
            n
        } else {
            ws.last().len()
        }
    }
}

/// Of words, one character each is taken where the first of each is taken.
pub proof fn lemma_one_taken_of_each_word(ws: Seq<Seq<char>>)
    requires
        forall|i: int| 0 <= i < ws.len() ==> spec_is_word(#[trigger] ws[i]),
    ensures
        spec_taken(ws, 1) == ws.len(),
    decreases ws.len(),
{
    if ws.len() > 0 {
        let front = ws.drop_last();
        assert forall|i: int| 0 <= i < front.len() implies spec_is_word(#[trigger] front[i]) by {
            assert(front[i] == ws[i]);
        }
        lemma_one_taken_of_each_word(front);
        assert(spec_is_word(ws[ws.len() - 1]));
    }
}

/// Appends to `out` what the first `n` characters of `word` give: one
/// character for each of them.
fn push_initials(out: &mut Vec<char>, word: &str, n: usize)
    ensures
        final(out)@ == old(out)@ + spec_lower_firsts(
            if n < word@.len() { word@.take(n as int) } else { word@ },
        ),
        final(out)@.len() == old(out)@.len() + if n < word@.len() {
            n as nat
        } else {
            word@.len()
        },
{
    let v = to_chars(word);
    let m: usize = if n < v.len() { n } else { v.len() };
    let ghost head = if n < word@.len() { word@.take(n as int) } else { word@ };
    let ghost parts = head.map_values(|c: char| spec_lower_first(c));
    let mut k: usize = 0;
    assert(parts.take(0) == Seq::<Seq<char>>::empty());
    assert(out@ == old(out)@ + parts.take(0).flatten());
    while k < m
        invariant
            k <= m == head.len() <= v.len(),
            v@ == word@,
            head == v@.take(m as int),
            parts == head.map_values(|c: char| spec_lower_first(c)),
            out@ == old(out)@ + parts.take(k as int).flatten(),
            out@.len() == old(out)@.len() + k,
        decreases m - k,
    {
        let lower = char_lowercase(v[k]);
        let ghost before = out@;
        out.push(lower[0]);
        proof {
            assert(out@ == before + spec_lower_first(v@[k as int]));
            assert(parts.take(k + 1) == parts.take(k as int).push(parts[k as int]));
            parts.take(k as int).lemma_flatten_push(parts[k as int]);
        }
        k += 1;
    }
    assert(parts.take(k as int) == parts);
}

/// Of each word its first `n` characters, each turned into the first
/// character of its lowercase mapping: one character for each character
/// taken.
pub fn n_chars(word: &Vec<String>, n: usize) -> (chars: Vec<char>)
    ensures
        chars@ == spec_n_chars(spec_texts(word@), n as nat),
        chars@.len() == spec_taken(spec_texts(word@), n as nat),
{
    let mut chars: Vec<char> = Vec::new();
    let ghost texts = spec_texts(word@);
    let ghost parts = texts.map_values(
        |w: Seq<char>| spec_lower_firsts(if n < w.len() { w.take(n as int) } else { w }),
    );
    let mut i: usize = 0;
    assert(parts.take(0) == Seq::<Seq<char>>::empty());
    assert(texts.take(0) == Seq::<Seq<char>>::empty());
    while i < word.len()
        invariant
            i <= word.len(),
            texts == spec_texts(word@),
            parts == texts.map_values(
                |w: Seq<char>| spec_lower_firsts(if n < w.len() { w.take(n as int) } else { w }),
            ),
            chars@ == parts.take(i as int).flatten(),
            chars@.len() == spec_taken(texts.take(i as int), n as nat),
        decreases word.len() - i,
    {
        push_initials(&mut chars, word[i].as_str(), n);
        proof {
            assert(parts.take(i + 1) == parts.take(i as int).push(parts[i as int]));
            parts.take(i as int).lemma_flatten_push(parts[i as int]);
            assert(texts.take(i + 1).drop_last() == texts.take(i as int));
            assert(texts.take(i + 1).last() == word@[i as int]@);
        }
        i += 1;
    }
    assert(parts.take(i as int) == parts);
    assert(texts.take(i as int) == texts);
    chars
}

/// Whether `a` and `b` hold the same characters in the same order.
pub fn same_chars(a: &Vec<char>, b: &Vec<char>) -> (r: bool)
    ensures
        r == (a@ == b@),
{
    if a.len() != b.len() {
        return false;
    }
    let mut i: usize = 0;
    while i < a.len()
        invariant
            i <= a.len() == b.len(),
            a@.take(i as int) == b@.take(i as int),
        decreases a.len() - i,
    {
        if a[i] != b[i] {
            return false;
        }
        assert(a@.take(i + 1) == a@.take(i as int).push(a@[i as int]));
        assert(b@.take(i + 1) == b@.take(i as int).push(b@[i as int]));
        i += 1;
    }
    assert(a@.take(i as int) == a@);
    assert(b@.take(i as int) == b@);
    true
}

/// Whether `a` and `b` are the same text.
pub fn same_text(a: &str, b: &str) -> (r: bool)
    ensures
        r == (a@ == b@),
{
    let chars_a = to_chars(a);
    let chars_b = to_chars(b);
    same_chars(&chars_a, &chars_b)
}

/// Whether the words of `slice` and of `with` start with the same letters,
/// word by word, whatever their case.
pub fn compare_words(slice: &str, with: &str) -> (r: bool)
    ensures
        r == (spec_n_chars(spec_words(slice@), 1) == spec_n_chars(spec_words(with@), 1)),
        spec_words(slice@).len() != spec_words(with@).len() ==> !r,
{
    let first_chars1 = n_chars(&get_words(slice), 1);
    let first_chars2 = n_chars(&get_words(with), 1);
    proof {
        lemma_words_are_words(slice@);
        lemma_words_are_words(with@);
        lemma_one_taken_of_each_word(spec_words(slice@));
        lemma_one_taken_of_each_word(spec_words(with@));
    }
    same_chars(&first_chars1, &first_chars2)
}

/// The words of the lowercase form of `s`: what is left of a header or a
/// sheet name once case and spacing are set aside.
pub open spec fn spec_normal(s: Seq<char>) -> Seq<Seq<char>> {
    spec_words(spec_lowercase(s))
}

/// The words of the lowercase form of `s`.
pub fn normal_words(s: &str) -> (words: Vec<String>)
    ensures
        spec_texts(words@) == spec_normal(s@),
{
    let lower = lowercase(s);
    get_words(lower.as_str())
}

/// Whether `a` and `b` hold the same texts in the same order.
pub fn same_texts(a: &Vec<String>, b: &Vec<String>) -> (r: bool)
    ensures
        r == (spec_texts(a@) == spec_texts(b@)),
{
    if a.len() != b.len() {
        assert(spec_texts(a@).len() != spec_texts(b@).len());
        return false;
    }
    let mut i: usize = 0;
    while i < a.len()
        invariant
            i <= a.len() == b.len(),
            forall|k: int| 0 <= k < i ==> a@[k]@ == b@[k]@,
        decreases a.len() - i,
    {
        if a[i] != b[i] {
            assert(spec_texts(a@)[i as int] != spec_texts(b@)[i as int]);
            return false;
        }
        i += 1;
    }
    assert(spec_texts(a@) =~= spec_texts(b@));
    true
}

/// Whether the header `b` has the words `words` once its case and spacing
/// are set aside: `header_matches` for a first header that has been taken
/// apart already.
pub fn header_has_words(words: &Vec<String>, b: &str) -> (r: bool)
    ensures
        r == (spec_texts(words@) == spec_normal(b@)),
{
    let words_b = normal_words(b);
    same_texts(words, &words_b)
}

/// Whether two headers, or two sheet names, are the same once case and
/// spacing are set aside: their lowercase forms have the same words.
pub fn header_matches(a: &str, b: &str) -> (r: bool)
    ensures
        r == (spec_normal(a@) == spec_normal(b@)),
{
    let words_a = normal_words(a);
    header_has_words(&words_a, b)
}

/// Whether `s` begins with `prefix`.
pub open spec fn spec_starts_with(s: Seq<char>, prefix: Seq<char>) -> bool {
    prefix.len() <= s.len() && s.take(prefix.len() as int) == prefix
}

/// Whether `part` stands at place `at` in `s`.
pub open spec fn spec_stands_at(s: Seq<char>, part: Seq<char>, at: int) -> bool {
    0 <= at && at + part.len() <= s.len() && s.subrange(at, at + part.len()) == part
}

/// Whether `part` stands somewhere in `s`.
pub open spec fn spec_contains(s: Seq<char>, part: Seq<char>) -> bool {
    exists|at: int| spec_stands_at(s, part, at)
}

/// Whether `part` stands at place `at` in `s`.
pub fn stands_at(s: &Vec<char>, part: &Vec<char>, at: usize) -> (r: bool)
    ensures
        r == spec_stands_at(s@, part@, at as int),
{
    if at > s.len() || part.len() > s.len() - at {
        return false;
    }
    let mut i: usize = 0;
    while i < part.len()
        invariant
            i <= part.len(),
            at + part.len() <= s.len(),
            forall|k: int| 0 <= k < i ==> s@[at + k] == part@[k],
        decreases part.len() - i,
    {
        if s[at + i] != part[i] {
            assert(s@.subrange(at as int, at + part.len())[i as int] != part@[i as int]);
            return false;
        }
        i += 1;
    }
    assert(s@.subrange(at as int, at + part.len()) =~= part@);
    true
}

/// Whether `s` begins with `prefix`.
pub fn starts_with(s: &Vec<char>, prefix: &Vec<char>) -> (r: bool)
    ensures
        r == spec_starts_with(s@, prefix@),
{
    let r = stands_at(s, prefix, 0);
    assert(prefix.len() <= s.len() ==> s@.take(prefix.len() as int) == s@.subrange(
        0,
        0 + prefix.len(),
    ));
    r
}

/// Whether `part` stands somewhere in `s`.
pub fn contains_text(s: &Vec<char>, part: &Vec<char>) -> (r: bool)
    ensures
        r == spec_contains(s@, part@),
{
    if part.len() > s.len() {
        return false;
    }
    let last: usize = s.len() - part.len();
    let mut at: usize = 0;
    while at < last
        invariant
            at <= last,
            last == s.len() - part.len(),
            forall|k: int| 0 <= k < at ==> !spec_stands_at(s@, part@, k),
        decreases last - at,
    {
        if stands_at(s, part, at) {
            return true;
        }
        at += 1;
    }
    stands_at(s, part, last)
}

} // verus!
