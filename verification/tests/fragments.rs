use state_consumer::data_entries::fragments::{
    declares_integer, declares_string, extract_integer_fragment, extract_string_fragment,
    split_to_fragments, DESCRIPTOR_SEPARATOR, FRAGMENT_SEPARATOR,
};
use state_consumer::text::{chars_of, decimal_string, occurs_at, parse_i64, split_chars, string_of};

fn fragments(text: &str) -> Vec<(String, String)> {
    split_to_fragments(&text.to_string())
}

fn pair(descriptor: &str, value: &str) -> (String, String) {
    (descriptor.to_string(), value.to_string())
}

fn split(text: &str, sep: &str) -> Vec<String> {
    split_chars(&text.chars().collect(), &sep.chars().collect())
}

#[test]
fn separators_are_the_documented_ones() {
    assert_eq!(FRAGMENT_SEPARATOR, "__");
    assert_eq!(DESCRIPTOR_SEPARATOR, "%");
}

#[test]
fn characters_of_a_text() {
    assert_eq!(chars_of("a_é"), vec!['a', '_', 'é']);
    assert_eq!(chars_of(""), Vec::<char>::new());
}

#[test]
fn string_of_a_range_of_characters() {
    let chars: Vec<char> = "héllo".chars().collect();
    assert_eq!(string_of(&chars, 1, 4), "éll");
    assert_eq!(string_of(&chars, 2, 2), "");
    assert_eq!(string_of(&chars, 0, 5), "héllo");
}

#[test]
fn occurrence_of_a_separator() {
    let text: Vec<char> = "a__b".chars().collect();
    let sep: Vec<char> = "__".chars().collect();
    assert!(!occurs_at(&text, &sep, 0));
    assert!(occurs_at(&text, &sep, 1));
    assert!(!occurs_at(&text, &sep, 2));
}

#[test]
fn split_agrees_with_the_standard_library() {
    let texts = [
        "", "_", "__", "___", "____", "a", "a__b", "a___b", "__a", "a__", "a____b", "a__b__c",
        "%s%d__x__1", "_a_b_", "a_b__c_d", "é__ü",
    ];
    for text in texts {
        let expected: Vec<String> = text.split("__").map(|p| p.to_string()).collect();
        assert_eq!(split(text, "__"), expected);
    }
    for text in ["", "%", "%%", "s", "%s", "s%d", "%s%d%", "a%%b"] {
        let expected: Vec<String> = text.split("%").map(|p| p.to_string()).collect();
        assert_eq!(split(text, "%"), expected);
    }
}

#[test]
fn split_keeps_what_follows_a_third_underscore() {
    assert_eq!(split("a___b", "__"), vec!["a".to_string(), "_b".to_string()]);
}

#[test]
fn split_on_a_separator_longer_than_the_text() {
    assert_eq!(split("a", "__"), vec!["a".to_string()]);
}

#[test]
fn split_on_an_empty_separator_is_the_whole_text() {
    assert_eq!(split("abc", ""), vec!["abc".to_string()]);
    assert_eq!(split("", ""), vec!["".to_string()]);
}

#[test]
fn parse_agrees_with_the_standard_library() {
    let texts = [
        "", "0", "7", "42", "-42", "+42", "-", "+", "--1", "+-1", "007", "-0", "+0", "1a", "a1",
        " 1", "1 ", "1_000", "9223372036854775807", "9223372036854775808",
        "-9223372036854775808", "-9223372036854775809", "99999999999999999999999999", "１２",
        "0x10", "1.5", "-00000000000000000000000001",
    ];
    for text in texts {
        assert_eq!(parse_i64(text), text.parse::<i64>().ok());
    }
}

#[test]
fn parse_of_the_extremes() {
    assert_eq!(parse_i64("9223372036854775807"), Some(i64::MAX));
    assert_eq!(parse_i64("-9223372036854775808"), Some(i64::MIN));
    assert_eq!(parse_i64("9223372036854775808"), None);
    assert_eq!(parse_i64("-9223372036854775809"), None);
}

#[test]
fn decimal_text_of_a_number() {
    assert_eq!(decimal_string(0), "0");
    assert_eq!(decimal_string(9), "9");
    assert_eq!(decimal_string(10), "10");
    assert_eq!(decimal_string(5432), "5432");
    assert_eq!(decimal_string(u64::MAX), "18446744073709551615");
}

#[test]
fn decimal_text_reads_back() {
    for n in [0u64, 1, 9, 10, 99, 100, 65535, 9223372036854775807] {
        assert_eq!(parse_i64(&decimal_string(n)), Some(n as i64));
    }
}

#[test]
fn fragments_of_a_key_with_a_bare_descriptor() {
    assert_eq!(fragments("#__42"), vec![pair("#", "42")]);
    assert_eq!(fragments("$__hello"), vec![pair("$", "hello")]);
    assert_eq!(extract_integer_fragment(&fragments("#__42"), 0), Some(42));
    assert_eq!(extract_string_fragment(&fragments("$__hello"), 0), Some("hello".to_string()));
}

#[test]
fn fragments_of_a_key_with_a_leading_percent() {
    let parsed = fragments("%s%d%s__alice__7__bob");
    assert_eq!(parsed, vec![pair("s", "alice"), pair("d", "7"), pair("s", "bob")]);
    assert_eq!(extract_string_fragment(&parsed, 0), Some("alice".to_string()));
    assert_eq!(extract_integer_fragment(&parsed, 0), None);
    assert_eq!(extract_integer_fragment(&parsed, 1), Some(7));
    assert_eq!(extract_string_fragment(&parsed, 1), None);
    assert_eq!(extract_string_fragment(&parsed, 2), Some("bob".to_string()));
    assert_eq!(extract_string_fragment(&parsed, 3), None);
    assert_eq!(extract_integer_fragment(&parsed, 3), None);
}

#[test]
fn fragments_without_a_leading_percent_are_the_same() {
    assert_eq!(fragments("s%d__a__1"), fragments("%s%d__a__1"));
    assert_eq!(fragments("s%d__a__1"), vec![pair("s", "a"), pair("d", "1")]);
}

#[test]
fn fragments_stop_at_the_shorter_of_descriptors_and_values() {
    assert_eq!(fragments("%s%d__a"), vec![pair("s", "a")]);
    assert_eq!(fragments("%s__a__b"), vec![pair("s", "a")]);
    assert_eq!(fragments("%s"), Vec::<(String, String)>::new());
    assert_eq!(fragments(""), Vec::<(String, String)>::new());
    assert_eq!(fragments("__a"), Vec::<(String, String)>::new());
    assert_eq!(fragments("plain"), Vec::<(String, String)>::new());
}

#[test]
fn unknown_descriptors_declare_nothing() {
    let parsed = fragments("%x%%S%sd__a__b__c__d");
    assert_eq!(parsed, vec![pair("x", "a"), pair("", "b"), pair("S", "c"), pair("sd", "d")]);
    for position in 0..5 {
        assert_eq!(extract_string_fragment(&parsed, position), None);
        assert_eq!(extract_integer_fragment(&parsed, position), None);
    }
}

#[test]
fn malformed_integers_are_absent() {
    let parsed = fragments("%d%d%d%d%d__12x____99999999999999999999__-5__+6");
    assert_eq!(extract_integer_fragment(&parsed, 0), None);
    assert_eq!(extract_integer_fragment(&parsed, 1), None);
    assert_eq!(extract_integer_fragment(&parsed, 2), None);
    assert_eq!(extract_integer_fragment(&parsed, 3), Some(-5));
    assert_eq!(extract_integer_fragment(&parsed, 4), Some(6));
}

#[test]
fn empty_strings_are_absent() {
    let parsed = fragments("%s%s____b");
    assert_eq!(parsed, vec![pair("s", ""), pair("s", "b")]);
    assert_eq!(extract_string_fragment(&parsed, 0), None);
    assert_eq!(extract_string_fragment(&parsed, 1), Some("b".to_string()));
}

#[test]
fn descriptors_by_kind() {
    assert!(declares_string(&"s".to_string()));
    assert!(declares_string(&"$".to_string()));
    assert!(!declares_string(&"d".to_string()));
    assert!(!declares_string(&"ss".to_string()));
    assert!(!declares_string(&"".to_string()));
    assert!(declares_integer(&"d".to_string()));
    assert!(declares_integer(&"#".to_string()));
    assert!(!declares_integer(&"s".to_string()));
    assert!(!declares_integer(&"D".to_string()));
}

#[test]
fn synthesised_keys_give_their_fragments_back() {
    let strings = ["a", "hello world", "x_y", "_lead", "é", "%", "12"];
    let integers = [0i64, 1, -1, 42, i64::MAX, i64::MIN];
    for leading in [true, false] {
        for s in strings {
            for i in integers {
                for (ds, di) in [("s", "d"), ("$", "#")] {
                    let header = if leading {
                        format!("%{}%{}%{}", ds, di, ds)
                    } else {
                        format!("{}%{}%{}", ds, di, ds)
                    };
                    let key = format!("{}__{}__{}__{}", header, s, i, s);
                    let parsed = fragments(&key);
                    assert_eq!(parsed.len(), 3);
                    assert_eq!(extract_string_fragment(&parsed, 0), Some(s.to_string()));
                    assert_eq!(extract_integer_fragment(&parsed, 0), None);
                    assert_eq!(extract_integer_fragment(&parsed, 1), Some(i));
                    assert_eq!(extract_string_fragment(&parsed, 1), None);
                    assert_eq!(extract_string_fragment(&parsed, 2), Some(s.to_string()));
                }
            }
        }
    }
}

#[test]
fn eleven_fragments_fill_eleven_columns() {
    let key = "%d%d%d%d%d%d%d%d%d%d%d%d__0__1__2__3__4__5__6__7__8__9__10__11";
    let parsed = fragments(key);
    assert_eq!(parsed.len(), 12);
    for position in 0..12 {
        assert_eq!(extract_integer_fragment(&parsed, position), Some(position as i64));
    }
}
