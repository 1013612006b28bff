use flowdom::color::{color_channels, parse_color};
use flowdom::dom::find_attr;
use flowdom::overrides::OverrideMap;
use flowdom::strutil::{chars_of, join_colon, parse_px, starts_with_str, str_eq, usize_to_string};

#[test]
fn pixel_values_parse_with_the_suffix_stripped() {
    assert_eq!(parse_px("12px"), Some(12));
    assert_eq!(parse_px("0px"), Some(0));
    assert_eq!(parse_px("8"), Some(8));
    assert_eq!(parse_px("12pxpx"), Some(12));
    assert_eq!(parse_px("4294967295px"), Some(4294967295));
    assert_eq!(parse_px("4294967296px"), None);
    assert_eq!(parse_px("99999999999999999999px"), None);
    assert_eq!(parse_px(""), None);
    assert_eq!(parse_px("px"), None);
    assert_eq!(parse_px("1.5px"), None);
    assert_eq!(parse_px("-3px"), None);
}

#[test]
fn numbers_print_in_decimal() {
    assert_eq!(usize_to_string(0), "0".to_string());
    assert_eq!(usize_to_string(7), "7".to_string());
    assert_eq!(usize_to_string(12345), "12345".to_string());
}

#[test]
fn joining_names_puts_one_separator_between_them() {
    assert_eq!(join_colon(&vec![]), "".to_string());
    assert_eq!(join_colon(&vec!["a".to_string()]), "a".to_string());
    assert_eq!(
        join_colon(&vec!["a".to_string(), "b".to_string(), "c".to_string()]),
        "a:b:c".to_string()
    );
}

#[test]
fn string_helpers_compare_characters() {
    assert!(str_eq("", ""));
    assert!(str_eq("abc", "abc"));
    assert!(!str_eq("abc", "abd"));
    assert!(!str_eq("abc", "ab"));
    assert!(starts_with_str("html:body:div", "html:"));
    assert!(!starts_with_str("html", "html:"));
    assert_eq!(chars_of("hi").len(), 2);
}

#[test]
fn colors_parse_from_hex_strings() {
    assert_eq!(parse_color("#ffcc00"), Some(0xffcc00));
    assert_eq!(parse_color("ffcc00"), Some(0xffcc00));
    assert_eq!(parse_color("#FFCC00"), Some(0xffcc00));
    assert_eq!(parse_color("#"), None);
    assert_eq!(parse_color("#zz0000"), None);
    assert_eq!(parse_color("#100000000"), None);
    assert_eq!(color_channels(0x112233), (0x11, 0x22, 0x33));
}

#[test]
fn attribute_lookup_takes_the_first_match() {
    let attrs = vec![
        ("x".to_string(), "1".to_string()),
        ("x".to_string(), "2".to_string()),
        ("y".to_string(), "3".to_string()),
    ];
    assert_eq!(find_attr(&attrs, "x"), Some("1".to_string()));
    assert_eq!(find_attr(&attrs, "y"), Some("3".to_string()));
    assert_eq!(find_attr(&attrs, "z"), None);
}

#[test]
fn the_override_map_binds_and_removes_by_prefix() {
    let mut m = OverrideMap::new();
    m.insert("a:b[1].gap-left".to_string(), "4px".to_string());
    m.insert("a:c[2].gap-left".to_string(), "6px".to_string());
    m.insert("a:b[1].gap-left".to_string(), "8px".to_string());
    assert_eq!(m.get("a:b[1].gap-left"), Some("8px".to_string()));
    assert_eq!(m.get("a:c[2].gap-left"), Some("6px".to_string()));
    assert_eq!(m.get("nope"), None);
    m.remove_prefix("a:b");
    assert_eq!(m.get("a:b[1].gap-left"), None);
    assert_eq!(m.get("a:c[2].gap-left"), Some("6px".to_string()));
    m.remove_prefix("a:");
    assert_eq!(m.get("a:c[2].gap-left"), None);
}
