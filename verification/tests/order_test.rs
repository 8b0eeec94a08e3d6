use breadcrumbs::order::{sort_texts, text_le};

#[test]
fn order_of_strings() {
    assert!(text_le("a", "b"));
    assert!(text_le("ab", "ab"));
    assert!(text_le("ab", "abc"));
    assert!(!text_le("b", "a"));
    assert!(!text_le("abc", "ab"));
    assert!(text_le("Z", "a"));
    for (a, b) in [("é", "z"), ("z", "é"), ("", "x"), ("x", ""), ("日本", "日")] {
        assert_eq!(text_le(a, b), a <= b, "{a:?} {b:?}");
    }
}

#[test]
fn sorting_like_std() {
    let input: Vec<String> =
        ["llama3.2:latest", "b", "a", "ä", "B", "a", "mistral:7b"].iter().map(|s| s.to_string()).collect();
    let mut expected = input.clone();
    expected.sort();
    assert_eq!(sort_texts(input), expected);
    assert_eq!(sort_texts(Vec::new()), Vec::<String>::new());
}
