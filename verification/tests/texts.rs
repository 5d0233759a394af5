use cima::json::{parse, BadJson, Json};
use cima::text::{
    contains, ends_with, find_from, is_space, join, parse_number, push_number, same, starts_with,
    to_chars, to_lower, to_string, to_string_range, trimmed,
};
use cima::utf8::{prefix_bytes, valid_up_to};

#[test]
fn json_values() {
    let j = parse(r#" {"a": [1, -2.5e1, true, null], "b": {"c": "x\ny\u00e9\ud83d\ude00"}, "a": 7} "#)
        .unwrap();
    let a = j.arr_of("a").unwrap();
    assert_eq!(a[0].as_u64(), Some(1));
    assert_eq!(a[1].as_f64(), Some((-25.0f64).to_bits()));
    assert_eq!(a[2].as_bool(), Some(true));
    assert!(matches!(a[3], Json::Null));
    assert_eq!(j.get("b").unwrap().str_of("c"), Some("x\ny\u{e9}\u{1f600}"));
    assert_eq!(j.usize_of("b"), None);
    assert_eq!(j.usize_or("z", 9), 9);
    assert_eq!(j.f32_or("z", 5), 5);
}

#[test]
fn malformed_json_is_refused() {
    for s in ["", "{", "[1,]", "{\"a\" 1}", "01", "\"\\q\"", "tru", "1 2", "\"\n\""] {
        assert_eq!(parse(s).err(), Some(BadJson), "{s}");
    }
}

#[test]
fn numbers_are_doubles() {
    for s in ["0", "-0", "1e400", "123456789.125", "1E-7", "0.1"] {
        let want: f64 = s.parse().unwrap();
        assert_eq!(parse(s).unwrap().as_f64(), Some(want.to_bits()), "{s}");
    }
}

#[test]
fn characters_make_strings() {
    let v = to_chars("aé€😀");
    assert_eq!(v.len(), 4);
    assert_eq!(to_string(&v), "aé€😀");
    assert_eq!(to_string_range(&v, 1, 3), "é€");
    let mut s = String::from("n=");
    push_number(&mut s, 10203);
    push_number(&mut s, 0);
    assert_eq!(s, "n=102030");
    assert_eq!(join("a", "b"), "ab");
}

#[test]
fn parts_of_texts() {
    assert!(starts_with("model.x", "model.") && !starts_with("m", "model."));
    assert!(ends_with("x.absmax", ".absmax") && !ends_with("x", ".absmax"));
    assert!(contains("a.b.c", ".b.") && contains("x", "") && !contains("ab", "ba"));
    assert!(same("é", "é") && !same("e", "é"));
    assert_eq!(find_from(&to_chars("abcabc"), &to_chars("bc"), 2), Some(4));
    assert_eq!(find_from(&to_chars("abc"), &to_chars("x"), 0), None);
}

#[test]
fn spaces_cases_and_numbers() {
    assert_eq!(to_string(&trimmed(&to_chars("\u{3000} a b\t\n"))), "a b");
    assert!(is_space('\u{a0}') && !is_space('x'));
    assert_eq!(to_lower('Q'), 'q');
    assert_eq!(to_lower('É'), 'É');
    let n = |s: &str| parse_number(&to_chars(s), 0, s.chars().count());
    assert_eq!(n("+042"), Some(42));
    assert_eq!(n("18446744073709551615"), Some(usize::MAX));
    assert_eq!(n("18446744073709551616"), None);
    assert_eq!(n("4x"), None);
    assert_eq!(n(""), None);
}

#[test]
fn streams_of_bytes() {
    assert_eq!(valid_up_to(&"aé€".as_bytes().to_vec()), 6);
    assert_eq!(valid_up_to(&vec![b'a', 0xe2, 0x82]), 1);
    assert_eq!(valid_up_to(&vec![0xed, 0xa0, 0x80]), 0);
    assert_eq!(valid_up_to(&vec![b'a', 0xc0, 0x80]), 1);
    assert_eq!(prefix_bytes("aé€", &to_chars("aé€"), 2), 3);
}
