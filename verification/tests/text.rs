use rusty_music::text::{chars_equal, chars_equal_ignore_ascii_case, chars_less, find_char_from, str_equal, substring, to_chars};

#[test]
fn text_helpers_compare_and_slice() {
    assert_eq!(to_chars("añb"), vec!['a', 'ñ', 'b']);
    assert!(str_equal("violin", "violin"));
    assert!(!str_equal("violin", "viola"));
    assert!(chars_equal(&to_chars("ab"), &to_chars("ab")));
    assert!(chars_equal_ignore_ascii_case(&to_chars("WaV"), &to_chars("wav")));
    assert!(!chars_equal_ignore_ascii_case(&to_chars("wa"), &to_chars("wav")));
    assert!(chars_less(&to_chars("cello"), &to_chars("violin")));
    assert!(chars_less(&to_chars("vio"), &to_chars("violin")));
    assert!(!chars_less(&to_chars("violin"), &to_chars("violin")));
    let s = to_chars("a_b_c");
    assert_eq!(find_char_from(&s, '_', 0), 1);
    assert_eq!(find_char_from(&s, '_', 2), 3);
    assert_eq!(find_char_from(&s, '_', 4), 5);
    assert_eq!(substring("añb_c", 1, 3), "ñb");
}
