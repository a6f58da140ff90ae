use symdex::chars::{
    chars_of_str, decimal_chars, join_chars, parse_decimal, split_chars, string_of_chars,
};

fn chars(s: &str) -> Vec<char> {
    chars_of_str(s)
}

#[test]
fn split_and_join_restore_each_other() {
    let v = chars("a,b,,c");
    let parts = split_chars(&v, ',');
    let texts: Vec<String> = parts.iter().map(|p| string_of_chars(p)).collect();
    assert_eq!(texts, vec!["a".to_string(), "b".to_string(), "".to_string(), "c".to_string()]);
    let joined = join_chars(&parts, ',');
    assert_eq!(string_of_chars(&joined), "a,b,,c".to_string());
}

#[test]
fn split_of_empty_is_one_empty_field() {
    let parts = split_chars(&chars(""), ',');
    assert_eq!(parts.len(), 1);
    assert!(parts[0].is_empty());
}

#[test]
fn decimal_format_exact() {
    assert_eq!(string_of_chars(&decimal_chars(0)), "0".to_string());
    assert_eq!(string_of_chars(&decimal_chars(907)), "907".to_string());
    assert_eq!(
        string_of_chars(&decimal_chars(u64::MAX)),
        "18446744073709551615".to_string()
    );
}

#[test]
fn decimal_parse_exact_and_refusals() {
    assert_eq!(parse_decimal(&chars("0")), Some(0));
    assert_eq!(parse_decimal(&chars("907")), Some(907));
    assert_eq!(parse_decimal(&chars("18446744073709551615")), Some(u64::MAX));
    // One past the largest value.
    assert_eq!(parse_decimal(&chars("18446744073709551616")), None);
    assert_eq!(parse_decimal(&chars("")), None);
    assert_eq!(parse_decimal(&chars("12a")), None);
    assert_eq!(parse_decimal(&chars("-1")), None);
}
