use tuenti::text;

fn chars(s: &str) -> Vec<char> {
    s.chars().collect()
}

#[test]
fn text_parse_follows_str_parse() {
    assert_eq!(text::parse_u64(&chars("18446744073709551615")), Some(u64::MAX));
    assert_eq!(text::parse_u64(&chars("18446744073709551616")), None);
    assert_eq!(text::parse_u64(&chars("")), None);
    assert_eq!(text::parse_u64(&chars("+")), None);
    assert_eq!(text::parse_u64(&chars("007")), Some(7));
    assert_eq!(text::parse_u8(&chars("255")), Some(255));
    assert_eq!(text::parse_u8(&chars("256")), None);
    assert_eq!(text::parse_u32(&chars("4294967295")), Some(u32::MAX));
    assert_eq!(text::parse_i32(&chars("-2147483648")), Some(i32::MIN));
    assert_eq!(text::parse_i32(&chars("2147483648")), None);
    assert_eq!(text::parse_i32(&chars("-")), None);
    assert_eq!(text::parse_i32(&chars("+12")), Some(12));
    assert_eq!(text::parse_usize(&chars("12a")), None);
}

#[test]
fn text_decimal_and_hex() {
    assert_eq!(text::decimal_string(0), "0");
    assert_eq!(text::decimal_string(1234567890), "1234567890");
    let mut s = String::new();
    text::push_hex8(&mut s, 0xdeadbeef);
    text::push_hex8(&mut s, 0x1f);
    assert_eq!(s, "deadbeef0000001f");
}

#[test]
fn text_split_keeps_empty_pieces() {
    let pieces = text::split(&chars(" a  b "), ' ');
    let got: Vec<String> = pieces.iter().map(|p| p.iter().collect()).collect();
    assert_eq!(got, vec!["", "a", "", "b", ""]);
    assert_eq!(text::split(&chars(""), ' ').len(), 1);
}

#[test]
fn text_lines_like_str_lines() {
    for s in ["a\nb", "a\r\nb\n", "", "\n", "x\r", "one\n\ntwo\r\n\r\n"].iter() {
        let got: Vec<String> = text::lines(&chars(s)).iter().map(|l| l.iter().collect()).collect();
        let want: Vec<String> = s.lines().map(|l| l.to_string()).collect();
        assert_eq!(got, want, "lines of {:?}", s);
    }
}

#[test]
fn text_search() {
    let s = chars("a: b: c");
    let pat = chars(": ");
    assert_eq!(text::find_text(&s, &pat, 0), Some(1));
    assert_eq!(text::find_text(&s, &pat, 2), Some(4));
    assert_eq!(text::find_text(&s, &pat, 5), None);
    let second: String = text::second_piece_of(&s, &pat).unwrap().iter().collect();
    assert_eq!(second, "b");
    assert!(text::second_piece_of(&chars("abc"), &pat).is_none());
    let before: String = text::before_char_of(&chars("12}3"), '}').iter().collect();
    assert_eq!(before, "12");
}

#[test]
fn text_order() {
    assert!(text::chars_lt(&chars("abc"), &chars("abd")));
    assert!(text::chars_lt(&chars("ab"), &chars("abc")));
    assert!(!text::chars_lt(&chars("abc"), &chars("abc")));
    assert!(!text::chars_lt(&chars("b"), &chars("abc")));
    assert!(text::chars_equal(&chars("xy"), &chars("xy")));
    assert!(text::str_equal("xy", "xy"));
    assert!(!text::str_equal("xy", "x"));
}
