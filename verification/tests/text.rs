use cdr_outline::text::{
    chars_of, contains_part, eq_ignore_case, find_part, find_second_word, lines, push_decimal,
    push_decimal_int, read_i32, read_unsigned, replace_char, split, string_of, trim, wide_null,
};

fn chars(text: &str) -> Vec<char> {
    text.chars().collect()
}

fn joined(parts: Vec<Vec<char>>) -> Vec<String> {
    parts.iter().map(|part| part.iter().collect()).collect()
}

#[test]
fn texts_are_taken_apart_like_std_does() {
    for text in ["", "a", "a\nb", "a\r\nb\r", "\n\n", " \u{3000}x\u{a0}", "a;b;;c;", "\u{1f600} y"] {
        assert_eq!(chars_of(text), chars(text));
        assert_eq!(string_of(&chars(text)), text);
        let expected: Vec<String> = text.lines().map(str::to_owned).collect();
        assert_eq!(joined(lines(&chars(text))), expected);
        let expected: Vec<String> = text.split(';').map(str::to_owned).collect();
        assert_eq!(joined(split(&chars(text), ';')), expected);
        assert_eq!(trim(&chars(text)), chars(text.trim()));
        let word = find_second_word(&chars(text)).map(|word| string_of(&word));
        assert_eq!(word.as_deref(), text.split_whitespace().nth(1));
        assert_eq!(replace_char(text, ';', "--"), text.replace(';', "--"));
        let wide: Vec<u16> = text.encode_utf16().chain(std::iter::once(0)).collect();
        assert_eq!(wide_null(text), wide);
        assert_eq!(contains_part(&chars(text), &chars("b")), text.contains('b'));
    }
    assert_eq!(find_part(&chars("xabab"), &chars("ab")), Some(1));
    assert_eq!(find_part(&chars("x"), &chars("xy")), None);
    assert!(eq_ignore_case("SvG", "svg") && !eq_ignore_case("\u{c9}", "\u{e9}"));
}

#[test]
fn numbers_are_read_like_std_does() {
    for text in ["", "0", "+7", "-7", "007", "2147483647", "2147483648", "-2147483648", "1x", "-"] {
        assert_eq!(read_i32(&chars(text)), text.parse::<i32>().ok());
        assert_eq!(
            read_unsigned(&chars(text), u16::MAX as u64),
            text.parse::<u16>().ok().map(u64::from)
        );
    }
    let mut out = String::new();
    push_decimal(&mut out, u64::MAX);
    push_decimal_int(&mut out, i32::MIN);
    assert_eq!(out, "18446744073709551615-2147483648");
}
