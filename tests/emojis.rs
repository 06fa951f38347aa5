use subtle::emojis::{get_flag_emoji, is_code_valid, to_utf8};

#[test]
fn regex() {
    assert!(is_code_valid("tr"));
    assert!(is_code_valid("us"));
    assert!(is_code_valid("uk"));
    assert!(is_code_valid("GB"));
    assert!(is_code_valid("CN"));
    assert!(is_code_valid("aE"));
    assert_eq!(is_code_valid("aaa"), false);
    assert_eq!(is_code_valid("123"), false);
}

#[test]
fn emoji() {
    assert_eq!(get_flag_emoji("tr").unwrap(), String::from("🇹🇷"));
    assert_eq!(get_flag_emoji("us").unwrap(), String::from("🇺🇸"));
    assert_eq!(get_flag_emoji("US").unwrap(), String::from("🇺🇸"));
    assert_eq!(get_flag_emoji("abc"), None);
    assert_eq!(get_flag_emoji("123"), None);

    println!("{}", console::Emoji("🇺🇸", "US"))
}

#[test]
fn flag_of_mixed_case_code() {
    assert_eq!(get_flag_emoji("gB").unwrap(), String::from("🇬🇧"));
    assert_eq!(get_flag_emoji(""), None);
    assert_eq!(get_flag_emoji("t"), None);
}

#[test]
fn utf8_widths() {
    assert_eq!(to_utf8(0x41), vec![0x41]);
    assert_eq!(to_utf8(0xE9), vec![0xC3, 0xA9]);
    assert_eq!(to_utf8(0x20AC), vec![0xE2, 0x82, 0xAC]);
    assert_eq!(to_utf8(0x1F1F9), vec![0xF0, 0x9F, 0x87, 0xB9]);
    assert_eq!(to_utf8(0x110000), Vec::<u8>::new());
    assert_eq!(to_utf8(0x1F1F9), "🇹".as_bytes().to_vec());
}
