use concentra::natural::Natural;
use concentra::signature::{count_missing, same_signature, similar, vec_differences};
use concentra::token::Token;

fn tokens(texts: &[&str]) -> Vec<Token> {
    texts.iter().map(|t| Token { text: t.to_string() }).collect()
}

fn numbered(prefix: &str, n: usize) -> Vec<Token> {
    (0..n).map(|i| Token { text: format!("{prefix}{i}") }).collect()
}

#[test]
fn vec_diff() {
    let a = vec![1, 2, 3, 4, 5];
    let b = vec![1, 2, 3, 4, 5, 6, 7, 8, 9];

    assert_eq!(vec_differences(&a, &b), 4);

    let b = vec![1, 2, 3, 4, 5, 6, 7];
    let a = vec![1, 2, 4, 5];

    assert_eq!(vec_differences(&a, &b), 3);
}

#[test]
fn differences_count_both_sides() {
    let a = vec![1, 2, 3];
    let b = vec![3, 4];
    assert_eq!(vec_differences(&a, &b), 3);
    assert_eq!(vec_differences(&b, &a), 3);
    assert_eq!(count_missing(&a, &b), 2);
    assert_eq!(count_missing(&b, &a), 1);
}

#[test]
fn differences_count_each_value_once() {
    let a = vec![7, 7, 7];
    let b: Vec<i32> = vec![];
    assert_eq!(vec_differences(&a, &b), 1);
    let a = vec![1, 1, 2, 2];
    let b = vec![2, 3, 3];
    assert_eq!(vec_differences(&a, &b), 2);
    assert_eq!(vec_differences(&a, &a), 0);
}

#[test]
fn differences_of_tokens_go_by_their_text() {
    let a = tokens(&["nc", "e", "cdl"]);
    let b = tokens(&["e", "nc", "x"]);
    assert_eq!(vec_differences(&a, &b), 2);
}

#[test]
fn equal_signatures_are_similar() {
    let a = vec![tokens(&["a", "b"]), tokens(&[])];
    let b = vec![tokens(&["a", "b"]), tokens(&[])];
    assert!(same_signature(&a, &b));
    assert!(similar(&a, &b));
    let none: Vec<Vec<Token>> = vec![];
    assert!(similar(&none, &none));
}

#[test]
fn signatures_with_other_sheet_counts_are_not_similar() {
    let a = vec![tokens(&["a", "b"])];
    let b = vec![tokens(&["a", "b"]), tokens(&["a", "b"])];
    assert!(!similar(&a, &b));
    assert!(!similar(&b, &a));
}

#[test]
fn similarity_of_exactly_four_fifths_is_enough() {
    // Ten tokens, one replaced: two differences of ten, similarity 0.8.
    let a = vec![numbered("t", 10)];
    let mut other = numbered("t", 9);
    other.push(Token { text: "otro".to_string() });
    let b = vec![other];
    assert!(similar(&a, &b));
    assert!(similar(&b, &a));
}

#[test]
fn similarity_below_four_fifths_is_not_enough() {
    // Five tokens, one replaced: two differences of five, similarity 0.6.
    let a = vec![numbered("t", 5)];
    let mut other = numbered("t", 4);
    other.push(Token { text: "otro".to_string() });
    let b = vec![other];
    assert!(!similar(&a, &b));
    // Eleven tokens against ten of them and two others: similarity 8/11.
    let a = vec![numbered("t", 11)];
    let mut other = numbered("t", 10);
    other.push(Token { text: "x".to_string() });
    other.push(Token { text: "y".to_string() });
    let b = vec![other];
    assert!(!similar(&a, &b));
}

#[test]
fn similarity_is_averaged_over_the_sheets() {
    // First sheet 1 - 2/4 = 0.5, second sheet 1: average 0.75.
    let a = vec![tokens(&["a", "b", "c", "d"]), tokens(&["p", "q"])];
    let b = vec![tokens(&["a", "b", "c", "z"]), tokens(&["p", "q"])];
    assert!(!similar(&a, &b));
    // First sheet 0.5, three sheets alike: average 0.875.
    let a = vec![
        tokens(&["a", "b", "c", "d"]),
        tokens(&["p"]),
        tokens(&["q"]),
        tokens(&["r"]),
    ];
    let b = vec![
        tokens(&["a", "b", "c", "z"]),
        tokens(&["p"]),
        tokens(&["q"]),
        tokens(&["r"]),
    ];
    assert!(similar(&a, &b));
}

#[test]
fn sheets_without_tokens_on_both_sides_cannot_be_compared() {
    let a = vec![tokens(&["a"]), tokens(&[]), tokens(&["b"])];
    let b = vec![tokens(&["a"]), tokens(&[]), tokens(&["c"])];
    assert!(!similar(&a, &b));
    let a = vec![tokens(&["a", "b", "c", "d", "e"]), tokens(&[])];
    let b = vec![tokens(&["a", "b", "c", "d", "e"]), tokens(&["x"])];
    // Second sheet: one difference of one. Average (1 + 0) / 2.
    assert!(!similar(&a, &b));
}

#[test]
fn similarity_is_exact_for_many_large_sheets() {
    // Forty sheets of 97, 98, ... tokens: the common denominator is far
    // beyond 128 bits. One token of the first sheet differs.
    let mut a = Vec::new();
    let mut b = Vec::new();
    for s in 0..40 {
        a.push(numbered("t", 97 + s));
        b.push(numbered("t", 97 + s));
    }
    b[0][0] = Token { text: "otro".to_string() };
    assert!(similar(&a, &b));
    // Every sheet differs in a fifth of its tokens and one more: not enough.
    let mut a = Vec::new();
    let mut b = Vec::new();
    for s in 0..40 {
        let n = 100 + 10 * s;
        let same = n - n / 10 - 1;
        let mut left = numbered("t", same);
        let mut right = numbered("t", same);
        left.extend(numbered("l", n - same));
        right.extend(numbered("r", n - same));
        a.push(left);
        b.push(right);
    }
    assert!(!similar(&a, &b));
    // Every sheet differs in exactly a fifth of its tokens: enough.
    let mut a = Vec::new();
    let mut b = Vec::new();
    for s in 0..40 {
        let n = 100 + 10 * s;
        let same = n - n / 10;
        let mut left = numbered("t", same);
        let mut right = numbered("t", same);
        left.extend(numbered("l", n - same));
        right.extend(numbered("r", n - same));
        a.push(left);
        b.push(right);
    }
    assert!(similar(&a, &b));
}

#[test]
fn naturals_multiply_add_and_compare() {
    let max = usize::MAX;
    let square = Natural::from_usize(max).times(max);
    let same = Natural::from_usize(max).times(max - 1).plus(&Natural::from_usize(max));
    assert!(square.at_most(&same));
    assert!(same.at_most(&square));
    let more = square.plus(&Natural::from_usize(1));
    assert!(square.at_most(&more));
    assert!(!more.at_most(&square));
    let cube = square.times(max);
    assert!(more.at_most(&cube));
    assert!(!cube.at_most(&more));
    let zero = Natural::from_usize(0);
    assert!(zero.at_most(&zero));
    assert!(zero.times(max).at_most(&zero));
    assert!(zero.at_most(&cube));
    assert!(!cube.at_most(&zero));
    assert!(cube.times(0).at_most(&zero));
}
