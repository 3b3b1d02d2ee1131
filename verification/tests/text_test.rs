use aion_tools::text::{decimal_string, escape_pointer_token, str_less};

#[test]
fn decimal_numerals() {
    assert_eq!(decimal_string(0), "0");
    assert_eq!(decimal_string(7), "7");
    assert_eq!(decimal_string(40), "40");
    assert_eq!(decimal_string(1234567), "1234567");
}

#[test]
fn pointer_tokens_escape_tilde_then_slash() {
    assert_eq!(escape_pointer_token("a/b~c"), "a~1b~0c");
    assert_eq!(escape_pointer_token("~1"), "~01");
    assert_eq!(escape_pointer_token("plain"), "plain");
    assert_eq!(escape_pointer_token(""), "");
}

#[test]
fn string_order_matches_std() {
    let words = ["", "a", "ab", "b", "B", "é", "中", "Read", "query"];
    for x in words {
        for y in words {
            assert_eq!(str_less(x, y), x < y, "{x} < {y}");
        }
    }
}
