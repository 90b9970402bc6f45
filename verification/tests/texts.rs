use docker_stats::order::{sort_texts, text_at_most};
use docker_stats::string_map::StringMap;
use docker_stats::text::{
    from_chars, parse_i32, parse_u32, push_decimal, signed_to_string, split, to_chars,
    trimmed_start,
};

fn chars(text: &str) -> Vec<char> {
    text.chars().collect()
}

#[test]
fn numbers_are_written_in_decimal() {
    for number in [0, 1, 9, 10, 99, 100, 1_715_000_000_123, u128::MAX] {
        let mut text = "x".to_string();
        push_decimal(&mut text, number);
        assert_eq!(text, format!("x{number}"));
    }
    for number in [0, 1, -1, 42, -42, i64::MIN, i64::MAX] {
        assert_eq!(signed_to_string(number), number.to_string());
    }
}

#[test]
fn numbers_are_parsed_as_std_does() {
    let texts = [
        "", "0", "7", "007", "+7", "-7", "+", "-", "--7", "+-7", "2147483647", "2147483648",
        "-2147483648", "-2147483649", "4294967295", "4294967296", "00000000000000000001", " 7",
        "7 ", "7a", "٣", "-0", "+0",
    ];
    for text in texts {
        assert_eq!(parse_u32(&chars(text)), text.parse::<u32>().ok(), "{text:?}");
        assert_eq!(parse_i32(&chars(text)), text.parse::<i32>().ok(), "{text:?}");
    }
}

#[test]
fn decimals_read_back() {
    for number in [0u32, 5, 10, 4_294_967_295] {
        let mut text = String::new();
        push_decimal(&mut text, number as u128);
        assert_eq!(parse_u32(&chars(&text)), Some(number));
    }
}

#[test]
fn texts_are_split_as_std_does() {
    for text in ["", ":", "a", "a:", ":a", "a:b::c", "é:ü"] {
        let parts: Vec<String> =
            split(&chars(text), ':').iter().map(|part| from_chars(part)).collect();
        let expected: Vec<String> = text.split(':').map(|part| part.to_string()).collect();
        assert_eq!(parts, expected, "{text:?}");
    }
}

#[test]
fn texts_are_trimmed_as_std_does() {
    for text in ["", "/", "//", "/name", "//name/", "name", "é/"] {
        assert_eq!(trimmed_start(text, '/'), text.trim_start_matches('/'));
    }
    assert_eq!(to_chars("a/é"), vec!['a', '/', 'é']);
}

#[test]
fn texts_are_ordered_as_std_does() {
    let texts = ["", "a", "b", "ab", "B", "é", "zz", "z", "\u{ffff}", "\u{10000}", "ab\0"];
    for left in texts {
        for right in texts {
            assert_eq!(text_at_most(left, right), left <= right, "{left:?} {right:?}");
        }
    }
    let given: Vec<String> = texts.iter().map(|text| text.to_string()).collect();
    let mut expected = given.clone();
    expected.sort();
    assert_eq!(sort_texts(given), expected);
}

#[test]
fn equal_texts_are_kept_when_sorted() {
    let given = vec!["b".to_string(), "a".to_string(), "b".to_string()];
    assert_eq!(sort_texts(given), vec!["a".to_string(), "b".to_string(), "b".to_string()]);
}

#[test]
fn a_map_holds_one_value_under_a_key() {
    let mut map: StringMap<u64> = StringMap::new();
    assert!(map.is_empty());
    assert_eq!(map.insert("a".to_string(), 1), None);
    assert_eq!(map.insert("b".to_string(), 2), None);
    assert_eq!(map.insert("a".to_string(), 3), Some(1));
    assert_eq!(map.len(), 2);
    assert_eq!(map.get("a"), Some(&3));
    assert_eq!(map.get("c"), None);
    assert!(map.contains_key("b"));
    assert_eq!(map.key_at(0), "a");
    assert_eq!(map.value_at(1), &2);
    let copy = map.clone();
    assert_eq!(map.remove("a"), Some(3));
    assert_eq!(map.remove("a"), None);
    assert_eq!(map.len(), 1);
    assert_eq!(copy.len(), 2);
    assert_eq!(copy.pairs(), &vec![("a".to_string(), 3), ("b".to_string(), 2)]);
}

#[test]
fn maps_of_texts_are_equal_whatever_the_order() {
    let mut left: StringMap<String> = StringMap::default();
    let mut right: StringMap<String> = StringMap::default();
    left.insert("a".to_string(), "1".to_string());
    left.insert("b".to_string(), "2".to_string());
    right.insert("b".to_string(), "2".to_string());
    assert!(left != right);
    right.insert("a".to_string(), "1".to_string());
    assert!(left == right);
    right.insert("a".to_string(), "2".to_string());
    assert!(left != right);
}

#[test]
fn lists_are_extended_under_their_key() {
    let mut map: StringMap<Vec<String>> = StringMap::new();
    map.append("k".to_string(), vec!["1".to_string()]);
    map.append("k".to_string(), vec!["2".to_string(), "3".to_string()]);
    map.append("l".to_string(), vec![]);
    assert_eq!(
        map.get("k"),
        Some(&vec!["1".to_string(), "2".to_string(), "3".to_string()])
    );
    assert_eq!(map.get("l"), Some(&vec![]));
}
