use circular_list::{count_occurrences, num_occurrences};

#[test]
fn test_num_occurrences() {
    let s = r#"
        <html>
            <body>
                <h1>Hello</h1>Covid-19... bla-bla how are you Covid-19
            </body>
            Covid
        </html>"#;

    assert_eq!(3, num_occurrences(&s.to_string(), &"Covid".to_string()));
    assert_eq!(2, num_occurrences(&s.to_string(), &"Covid-19".to_string()));
}

#[test]
fn word_is_trimmed_and_case_folded() {
    let s = "COVID covid CoViD".to_string();
    assert_eq!(3, num_occurrences(&s, &"  covid\t".to_string()));
}

#[test]
fn matches_do_not_overlap() {
    assert_eq!(2, count_occurrences("aaaa", "aa"));
    assert_eq!(1, count_occurrences("aaa", "aa"));
    assert_eq!(0, count_occurrences("ab", "abc"));
}

#[test]
fn empty_pattern_matches_every_boundary() {
    assert_eq!(4, count_occurrences("abc", ""));
    assert_eq!(3, count_occurrences("éü", ""));
    assert_eq!(1, count_occurrences("", ""));
}
