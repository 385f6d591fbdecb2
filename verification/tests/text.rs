use katsu_compat::text::{chars_of, string_of, push_chars};

#[test]
fn characters_survive_a_round_trip_through_a_string() {
    let v = chars_of("h\u{e9}llo \u{1f600}");
    assert_eq!(v, vec!['h', '\u{e9}', 'l', 'l', 'o', ' ', '\u{1f600}']);
    assert_eq!(string_of(&v), "h\u{e9}llo \u{1f600}");
    let mut s = String::from("ab");
    push_chars(&mut s, &vec!['c', 'd']);
    assert_eq!(s, "abcd");
}
