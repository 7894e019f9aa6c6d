use redlib::text::{chars_of, contains, replace, split, string_of};

fn v(s: &str) -> Vec<char> {
    s.chars().collect()
}

#[test]
fn replace_scans_left_to_right_without_overlap() {
    assert_eq!(string_of(&replace(&v("aaaa"), &v("aa"), &v("b"))), "bb");
    assert_eq!(string_of(&replace(&v("a%26b%2%26"), &v("%26"), &v("&"))), "a&b%2&");
    assert_eq!(string_of(&replace(&v("%2526"), &v("%26"), &v("&"))), "%2526");
    assert_eq!(string_of(&replace(&v("x"), &v("yy"), &v("z"))), "x");
}

#[test]
fn contains_finds_substrings() {
    assert!(contains(&v("a=1; subscriptions1=x"), &v("subscriptions1=")));
    assert!(!contains(&v("a=1; subscriptions10=x"), &v("subscriptions1=")));
    assert!(contains(&v("abc"), &v("")));
}

#[test]
fn split_keeps_empty_pieces() {
    let parts: Vec<String> = split(&v("+a++b+"), '+').iter().map(string_of).collect();
    assert_eq!(parts, vec!["", "a", "", "b", ""]);
    let parts: Vec<String> = split(&v(""), '+').iter().map(string_of).collect();
    assert_eq!(parts, vec![""]);
}

#[test]
fn chars_round_trip_through_strings() {
    assert_eq!(string_of(&chars_of("héllo")), "héllo");
}

