use rlq::text::{chars_of, push_decimal, split_on, str_eq, str_le};

#[test]
fn chars_of_text() {
    assert_eq!(chars_of("aé\t"), vec!['a', 'é', '\t']);
    assert!(chars_of("").is_empty());
}

#[test]
fn split_on_separator() {
    let chars = chars_of("a,b,,c");
    assert_eq!(split_on(&chars, chars.len(), ','), vec!["a", "b", "", "c"]);
    assert_eq!(split_on(&chars, 3, ','), vec!["a", "b"]);
    assert_eq!(split_on(&chars, 4, ','), vec!["a", "b", ""]);
    assert_eq!(split_on(&chars, 0, ','), vec![""]);
    let plain = chars_of("abc");
    assert_eq!(split_on(&plain, 3, ','), vec!["abc"]);
    let only = chars_of(",");
    assert_eq!(split_on(&only, 1, ','), vec!["", ""]);
}

#[test]
fn str_eq_compares_text() {
    assert!(str_eq("", ""));
    assert!(str_eq("abc", "abc"));
    assert!(!str_eq("abc", "abd"));
    assert!(!str_eq("abc", "ab"));
    assert!(!str_eq("", "a"));
    assert!(str_eq("é", "é"));
}

#[test]
fn str_le_is_the_order_of_bytes() {
    let texts = ["", "a", "ab", "b", "B", "10", "9", "é", "z", "a\t", "日本"];
    for a in texts {
        for b in texts {
            assert_eq!(str_le(a, b), a <= b, "{:?} and {:?}", a, b);
        }
    }
}

#[test]
fn push_decimal_appends_digits() {
    let mut s = String::from("n=");
    push_decimal(&mut s, 0);
    assert_eq!(s, "n=0");
    push_decimal(&mut s, 907);
    assert_eq!(s, "n=0907");
    let mut t = String::new();
    push_decimal(&mut t, usize::MAX);
    assert_eq!(t, usize::MAX.to_string());
}
