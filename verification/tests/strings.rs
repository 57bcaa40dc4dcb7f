use concentra::text::{
    compare_words, get_words, join_texts, n_chars, sanitize_spaces, sanitize_spaces_iter, space_join,
};

#[test]
fn spaces_into_string() {
    let expect = ["hola", "como", "estas"];
    let inp = "\n\n\t\n   hola\t\t\n \n\t\n como\n\n\t\t\n\n\t \n \testas\n\n\t";

    let expect = expect.into_iter().collect::<Vec<_>>().join(" ");
    let got = join_texts(&space_join(get_words(inp)).collect());

    assert_eq!(expect, got);
}

#[test]
fn spaces() {
    let expect = ["hola", "como", "estas"];
    let inp = "\n\n\t\n   hola\t\t\n \n\t\n como\n\n\t\t\n\n\t \n \testas\n\n\t";

    assert!(
        expect.into_iter().eq(get_words(inp)),
        "{:?} vs {:?}",
        expect.iter().collect::<Vec<_>>(),
        get_words(inp)
    );
}

#[test]
fn take_chars_2() {
    let str = "Hola me llamo daniel";
    let expected = &['h', 'o', 'm', 'e', 'l', 'l', 'd', 'a'];

    let res = n_chars(&get_words(str), 2);

    assert_eq!(res.as_slice(), expected.as_slice());
}

#[test]
fn take_chars_spaces_2() {
    let str = "Hola me llamo Daniel";
    let expected = &['h', 'o', ' ', 'm', 'e', ' ', 'l', 'l', ' ', 'd', 'a'];

    let res = n_chars(&space_join(get_words(str)).collect(), 2);

    assert_eq!(res.as_slice(), expected.as_slice());
}

#[test]
fn compare() {
    let name1 = "Juan P. Rodriguez Pérez";
    let name2 = "Juan Pablo R. P.";

    assert!(compare_words(name1, name2));
}

#[test]
fn compare_tells_different_initials_apart() {
    assert!(!compare_words("Juan Pablo", "Juan Carlos"));
    assert!(!compare_words("Juan Pablo", "Juan"));
    assert!(compare_words("", " \t"));
}

#[test]
fn sanitize_spaces_joins_words_with_one_space() {
    let text = "\t\t\n Hello,\n\n\t \r\n world!\n\t\n";
    assert_eq!(sanitize_spaces(text), "Hello, world!".to_string());
    assert_eq!(sanitize_spaces(""), "");
    assert_eq!(sanitize_spaces(" \n "), "");
    assert_eq!(sanitize_spaces("solo"), "solo");
}

#[test]
fn sanitize_spaces_iter_yields_words_and_spaces() {
    let text = "\t\t\n Hello, \n\n\t \r\n world!\n\t\n";
    assert_eq!(sanitize_spaces_iter(text).collect(), vec!["Hello,", " ", "world!"]);
}

#[test]
fn joiner_hands_out_one_item_at_a_time() {
    let mut joiner = space_join(vec!["a".to_string(), "b".to_string()]);
    assert_eq!(joiner.next(), Some("a".to_string()));
    assert_eq!(joiner.next(), Some(" ".to_string()));
    assert_eq!(joiner.next(), Some("b".to_string()));
    assert_eq!(joiner.next(), None);
    assert_eq!(joiner.next(), None);
    assert_eq!(joiner.next(), None);
}

#[test]
fn joiner_of_nothing_is_empty() {
    let mut joiner = space_join(Vec::new());
    assert_eq!(joiner.next(), None);
    assert_eq!(joiner.next(), None);
}

#[test]
fn words_keep_inner_whitespace_that_is_no_separator() {
    assert_eq!(get_words("a\u{a0}b c"), vec!["a\u{a0}b", "c"]);
    assert_eq!(get_words("\u{a0}a\u{a0} \u{a0}"), vec!["a"]);
}

#[test]
fn n_chars_takes_only_the_first_of_a_lowercase_mapping() {
    // U+0130 maps to two characters in lower case; only the first is kept.
    assert_eq!(n_chars(&vec!["\u{130}x".to_string()], 1), vec!['i']);
    assert_eq!(n_chars(&vec!["AB".to_string(), "C".to_string()], 0), Vec::<char>::new());
    assert_eq!(n_chars(&vec!["AB".to_string(), "C".to_string()], 5), vec!['a', 'b', 'c']);
}
