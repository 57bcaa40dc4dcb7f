//! The grouping key of a file name: the name without its extension and
//! without a trailing cycle token and the campus token before it.
//!
//! Names are byte strings. Nothing is normalised: two names give the same key
//! only if the bytes that remain are the same.

use bstr::ByteSlice;
use vstd::prelude::*;
use vstd::slice::*;

verus! {

/// Length of the trailing window that may hold a cycle, as in `24-25`.
pub const LEN_CICLO: usize = 5;

/// Length of the token that stands before a cycle.
pub const LEN_TOKEN: usize = 3;

/// Names up to this length are keys as they stand.
pub const LEN_SHORT: usize = 9;

/// Whether `b` is the byte of a dot.
pub open spec fn spec_is_dot(b: u8) -> bool {
    b == 46
}

/// Whether `b` is the byte of an underscore.
pub open spec fn spec_is_underscore(b: u8) -> bool {
    b == 95
}

/// The place of the last dot in `s`, if it has one.
pub open spec fn spec_last_dot(s: Seq<u8>) -> Option<int>
    decreases s.len(),
{
    if s.len() == 0 {
        None
    } else if spec_is_dot(s.last()) {
        Some(s.len() - 1)
    } else {
        spec_last_dot(s.drop_last())
    }
}

/// `s` without the underscores at its end.
pub open spec fn spec_trim_underscores(s: Seq<u8>) -> Seq<u8>
    decreases s.len(),
{
    if s.len() > 0 && spec_is_underscore(s.last()) {
        spec_trim_underscores(s.drop_last())
    } else {
        s
    }
}

/// `s` without its last `n` bytes, or empty where it is shorter.
pub open spec fn spec_drop_tail(s: Seq<u8>, n: int) -> Seq<u8> {
    if s.len() >= n {
        s.take(s.len() - n)
    } else {
        Seq::empty()
    }
}

/// The name without its extension: what stands before the last dot, or the
/// whole name where it has no dot.
pub open spec fn spec_stem(name: Seq<u8>) -> Seq<u8> {
    match spec_last_dot(name) {
        Some(i) => name.take(i),
        None => name,
    }
}

/// Whether `stem` ends in a cycle: it is longer than the window, and the
/// window's middle byte is a hyphen.
pub open spec fn spec_has_cycle(stem: Seq<u8>) -> bool {
    stem.len() > LEN_CICLO && stem[stem.len() - 3] == 45
}

/// `stem` without the window, the underscores before it, the token before
/// those, and the underscores before the token.
pub open spec fn spec_strip_cycle(stem: Seq<u8>) -> Seq<u8> {
    spec_trim_underscores(
        spec_drop_tail(
            spec_trim_underscores(spec_drop_tail(stem, LEN_CICLO as int)),
            LEN_TOKEN as int,
        ),
    )
}

/// The key of a stem.
pub open spec fn spec_canonical(stem: Seq<u8>) -> Seq<u8> {
    if spec_has_cycle(stem) {
        spec_strip_cycle(stem)
    } else {
        stem
    }
}

/// The key of a file name.
pub open spec fn spec_key(name: Seq<u8>) -> Seq<u8> {
    if name.len() > LEN_SHORT {
        spec_canonical(spec_stem(name))
    } else {
        name
    }
}

/// Whether `c` is an underscore.
pub fn is_underscore(c: char) -> (r: bool)
    ensures
        r == (c == '_'),
{
    c == '_'
}

/// Calls `ByteSlice::rsplit_once_str` of bstr with a dot for the splitter.
/// It is `None` where `name` has no dot, and else the bytes before the last
/// dot and the bytes after it.
#[verifier::external_body]
fn split_at_last_dot(name: &[u8]) -> (r: Option<(&[u8], &[u8])>)
    ensures
        match r {
            Some((before, after)) => spec_last_dot(name@) is Some && before@ == name@.take(
                spec_last_dot(name@)->0,
            ) && after@ == name@.skip(spec_last_dot(name@)->0 + 1),
            None => spec_last_dot(name@) is None,
        },
{
    name.rsplit_once_str(".")
}

/// Calls `ByteSlice::trim_end_with` of bstr with the test for an underscore.
/// An underscore is one byte in UTF-8 and no part of another character, so
/// what comes back is `name` without the underscore bytes at its end.
#[verifier::external_body]
fn trim_end_underscores(name: &[u8]) -> (r: &[u8])
    ensures
        r@ == spec_trim_underscores(name@),
{
    name.trim_end_with(|c| is_underscore(c))
}

/// `name` without its last `n` bytes, or empty where it is shorter.
fn drop_tail(name: &[u8], n: usize) -> (r: &[u8])
    ensures
        r@ == spec_drop_tail(name@, n as int),
{
    if name.len() >= n {
        let r = slice_subrange(name, 0, name.len() - n);
        assert(r@ == name@.take(name.len() - n));
        r
    } else {
        let r = slice_subrange(name, 0, 0);
        assert(r@ == Seq::<u8>::empty());
        r
    }
}

/// The grouping key of the file name `entrada`.
///
/// A name of at most nine bytes is its own key. A longer one loses its
/// extension; if what remains ends in a cycle, it also loses the cycle, the
/// three bytes before it, and the underscores before each.
pub fn get_name(entrada: &[u8]) -> (name: &[u8])
    ensures
        name@ == spec_key(entrada@),
{
    if entrada.len() > LEN_SHORT {
        let stem = match split_at_last_dot(entrada) {
            Some((stem, _extension)) => stem,
            None => entrada,
        };
        if stem.len() > LEN_CICLO && stem[stem.len() - 3] == 45 {
            let name = drop_tail(stem, LEN_CICLO);
            let name = trim_end_underscores(name);
            let name = drop_tail(name, LEN_TOKEN);
            trim_end_underscores(name)
        } else {
            stem
        }
    } else {
        entrada
    }
}

/// Trimming underscores takes away underscores only, from the end, and
/// leaves none at the end.
pub proof fn lemma_trim_underscores(s: Seq<u8>)
    ensures
        spec_trim_underscores(s).len() <= s.len(),
        spec_trim_underscores(s) == s.take(spec_trim_underscores(s).len() as int),
        spec_trim_underscores(s).len() > 0 ==> !spec_is_underscore(spec_trim_underscores(s).last()),
        forall|i: int|
            spec_trim_underscores(s).len() <= i < s.len() ==> spec_is_underscore(#[trigger] s[i]),
    decreases s.len(),
{
    if s.len() > 0 && spec_is_underscore(s.last()) {
        let r = s.drop_last();
        lemma_trim_underscores(r);
        let t = spec_trim_underscores(s);
        assert(r.take(t.len() as int) == s.take(t.len() as int));
        assert forall|i: int| t.len() <= i < s.len() implies spec_is_underscore(
            #[trigger] s[i],
        ) by {
            if i < r.len() {
                assert(s[i] == r[i]);
            }
        }
    } else {
        assert(s.take(s.len() as int) == s);
    }
}

/// What is taken from a stem that ends in a cycle is, from the end: the
/// window of the cycle, then underscores, then three bytes or as many as
/// are left, then underscores. What stays is the beginning of the stem and
/// does not end in an underscore.
pub proof fn lemma_strip_cycle_parts(stem: Seq<u8>)
    requires
        spec_has_cycle(stem),
    ensures
        ({
            let key = spec_strip_cycle(stem);
            let before_window = spec_trim_underscores(spec_drop_tail(stem, LEN_CICLO as int));
            let before_token = spec_drop_tail(before_window, LEN_TOKEN as int);
            &&& key == stem.take(key.len() as int)
            &&& key.len() <= before_token.len() <= before_window.len() <= stem.len() - LEN_CICLO
            &&& before_token.len() == if before_window.len() >= LEN_TOKEN {
                before_window.len() - LEN_TOKEN
            } else {
                0
            }
            &&& forall|i: int|
                before_window.len() <= i < stem.len() - LEN_CICLO ==> spec_is_underscore(
                    #[trigger] stem[i],
                )
            &&& forall|i: int|
                key.len() <= i < before_token.len() ==> spec_is_underscore(#[trigger] stem[i])
            &&& key.len() > 0 ==> !spec_is_underscore(key.last())
            &&& before_window.len() > 0 ==> !spec_is_underscore(before_window.last())
        }),
{
    let a = spec_drop_tail(stem, LEN_CICLO as int);
    let b = spec_trim_underscores(a);
    let c = spec_drop_tail(b, LEN_TOKEN as int);
    let d = spec_trim_underscores(c);
    lemma_trim_underscores(a);
    lemma_trim_underscores(c);
    assert(c == b.take(c.len() as int));
    assert(d == stem.take(d.len() as int));
    assert forall|i: int| b.len() <= i < stem.len() - LEN_CICLO implies spec_is_underscore(
        #[trigger] stem[i],
    ) by {
        assert(stem[i] == a[i]);
    }
    assert forall|i: int| d.len() <= i < c.len() implies spec_is_underscore(#[trigger] stem[i]) by {
        assert(stem[i] == c[i]);
    }
}

/// The key is the beginning of the name: only trailing bytes are taken away.
pub proof fn lemma_key_is_prefix(name: Seq<u8>)
    ensures
        spec_key(name).len() <= name.len(),
        spec_key(name) == name.take(spec_key(name).len() as int),
{
    if name.len() > LEN_SHORT {
        let stem = spec_stem(name);
        lemma_last_dot(name);
        assert(stem == name.take(stem.len() as int)) by {
            if spec_last_dot(name) is None {
                assert(name.take(name.len() as int) == name);
            }
        }
        if spec_has_cycle(stem) {
            let a = spec_drop_tail(stem, LEN_CICLO as int);
            let b = spec_trim_underscores(a);
            let c = spec_drop_tail(b, LEN_TOKEN as int);
            let d = spec_trim_underscores(c);
            lemma_trim_underscores(a);
            lemma_trim_underscores(c);
            assert(c == b.take(c.len() as int));
            assert(d == name.take(d.len() as int));
        }
    } else {
        assert(name.take(name.len() as int) == name);
    }
}

/// Where the last dot stands, there is a dot and none after it.
pub proof fn lemma_last_dot(s: Seq<u8>)
    ensures
        match spec_last_dot(s) {
            Some(i) => 0 <= i < s.len() && spec_is_dot(s[i]) && forall|j: int|
                i < j < s.len() ==> !spec_is_dot(#[trigger] s[j]),
            None => forall|j: int| 0 <= j < s.len() ==> !spec_is_dot(#[trigger] s[j]),
        },
    decreases s.len(),
{
    if s.len() == 0 {
    } else if spec_is_dot(s.last()) {
    } else {
        let r = s.drop_last();
        lemma_last_dot(r);
        assert forall|j: int| 0 <= j < r.len() implies s[j] == r[j] by {}
        match spec_last_dot(s) {
            Some(i) => {
                assert forall|j: int| i < j < s.len() implies !spec_is_dot(#[trigger] s[j]) by {
                    if j < r.len() {
                        assert(s[j] == r[j]);
                    }
                }
            },
            None => {
                assert forall|j: int| 0 <= j < s.len() implies !spec_is_dot(#[trigger] s[j]) by {
                    if j < r.len() {
                        assert(s[j] == r[j]);
                    }
                }
            },
        }
    }
}

/// A name is its own key exactly if it is short, or has neither an extension
/// nor a cycle at its end. So the key of a name is again a key of itself
/// unless it is long and still ends in an extension or a cycle.
pub proof fn lemma_key_is_fixed(name: Seq<u8>)
    ensures
        spec_key(name) == name <==> name.len() <= LEN_SHORT || (spec_last_dot(name) is None
            && !spec_has_cycle(name)),
{
    if name.len() > LEN_SHORT {
        lemma_last_dot(name);
        let stem = spec_stem(name);
        if spec_last_dot(name) is Some {
            lemma_key_is_prefix(name);
            assert(stem.len() < name.len());
            if spec_has_cycle(stem) {
                lemma_strip_cycle_shortens(stem);
            }
        } else if spec_has_cycle(name) {
            lemma_strip_cycle_shortens(name);
        }
    }
}

/// Taking a cycle away takes at least its window away.
pub proof fn lemma_strip_cycle_shortens(stem: Seq<u8>)
    requires
        spec_has_cycle(stem),
    ensures
        spec_strip_cycle(stem).len() + LEN_CICLO <= stem.len(),
{
    let a = spec_drop_tail(stem, LEN_CICLO as int);
    let b = spec_trim_underscores(a);
    let c = spec_drop_tail(b, LEN_TOKEN as int);
    lemma_trim_underscores(a);
    lemma_trim_underscores(c);
}

/// The key of a name, given an extension again, has the same key, as long as
/// the key does not itself end in a cycle and the new name is not short.
pub proof fn lemma_key_idempotent(name: Seq<u8>, extension: Seq<u8>)
    requires
        spec_last_dot(extension) is None,
        !spec_has_cycle(spec_key(name)),
        spec_key(name).len() + 1 + extension.len() > LEN_SHORT,
    ensures
        spec_key(spec_key(name) + seq![46u8] + extension) == spec_key(name),
{
    let key = spec_key(name);
    let again = key + seq![46u8] + extension;
    lemma_last_dot(extension);
    lemma_last_dot_of_joined(key, extension);
    assert(again.take(key.len() as int) == key);
}

/// In `stem`, a dot, and an extension without dots, the last dot is the one
/// between the two.
pub proof fn lemma_last_dot_of_joined(stem: Seq<u8>, extension: Seq<u8>)
    requires
        spec_last_dot(extension) is None,
    ensures
        spec_last_dot(stem + seq![46u8] + extension) == Some(stem.len() as int),
    decreases extension.len(),
{
    let joined = stem + seq![46u8] + extension;
    if extension.len() == 0 {
        assert(spec_is_dot(joined.last()));
    } else {
        assert(joined.last() == extension.last());
        assert(joined.drop_last() == stem + seq![46u8] + extension.drop_last());
        lemma_last_dot_of_joined(stem, extension.drop_last());
    }
}

} // verus!
