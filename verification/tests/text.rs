use netmon::text::{
    chars_of, count_digits, decimal_text, find_char, find_last, find_text, lowered, push_padded,
    push_two, read_u16, read_u32, read_u64, split_lines, split_words, text_of, trimmed,
    trimmed_start, white,
};

fn words(s: &str) -> Vec<String> {
    split_words(&chars_of(s)).iter().map(|w| text_of(w)).collect()
}

fn lines(s: &str) -> Vec<String> {
    split_lines(&chars_of(s)).iter().map(|w| text_of(w)).collect()
}

const SAMPLES: [&str; 12] = [
    "",
    " ",
    "a",
    "  a  b\tc \u{a0}d\u{3000}é ",
    "one\ntwo\r\nthree",
    "one\n\n\r\n",
    "\r\n",
    "a\rb\n",
    "\n",
    "x\u{85}y\u{2028}z",
    "\u{b}\u{c}v\u{1c}w",
    "tail\r",
];

#[test]
fn words_and_lines_match_std() {
    for s in SAMPLES {
        let w: Vec<String> = s.split_whitespace().map(|x| x.to_string()).collect();
        assert_eq!(words(s), w, "{:?}", s);
        let l: Vec<String> = s.lines().map(|x| x.to_string()).collect();
        assert_eq!(lines(s), l, "{:?}", s);
        assert_eq!(text_of(trimmed(&chars_of(s))), s.trim());
        assert_eq!(text_of(trimmed_start(&chars_of(s))), s.trim_start());
    }
    for n in 0..0x3100u32 {
        if let Some(c) = char::from_u32(n) {
            assert_eq!(white(c), c.is_whitespace(), "{:x}", n);
        }
    }
}

#[test]
fn numbers_match_std() {
    for s in [
        "", "0", "7", "+7", "-7", "++7", "007", "65535", "65536", "4294967295", "4294967296",
        "18446744073709551615", "18446744073709551616", "99999999999999999999999", "1x", " 1",
        "+", "٣",
    ] {
        let cs = chars_of(s);
        assert_eq!(read_u64(&cs), s.parse::<u64>().ok(), "{}", s);
        assert_eq!(read_u32(&cs), s.parse::<u32>().ok(), "{}", s);
        assert_eq!(read_u16(&cs), s.parse::<u16>().ok(), "{}", s);
    }
}

#[test]
fn a_number_reads_as_it_was_written() {
    for n in [0u64, 9, 10, 99, 100, 1234567890, u64::MAX] {
        assert_eq!(decimal_text(n), n.to_string());
        assert_eq!(read_u64(&chars_of(&decimal_text(n))), Some(n));
    }
}

#[test]
fn searching() {
    let s = chars_of("abcabc");
    assert_eq!(find_text(&s, &chars_of("ca")), Some(2));
    assert_eq!(find_text(&s, &chars_of("")), Some(0));
    assert_eq!(find_text(&s, &chars_of("cb")), None);
    assert_eq!(find_text(&s, &chars_of("abcabcd")), None);
    assert_eq!(find_char(&s, 'c', 0), 2);
    assert_eq!(find_char(&s, 'c', 3), 5);
    assert_eq!(find_char(&s, 'x', 0), 6);
    assert_eq!(find_last(&s, 'a'), Some(3));
    assert_eq!(find_last(&s, 'x'), None);
    assert_eq!(count_digits(&chars_of("123a4")), 3);
    assert_eq!(text_of(&lowered(&chars_of("ÀbC-Z9"))), "ÀbC-Z9".to_ascii_lowercase());
}

#[test]
fn padding() {
    let mut s = String::new();
    push_padded(&mut s, "ab", 4, '.');
    push_padded(&mut s, "abcde", 4, '.');
    push_two(&mut s, 7);
    push_two(&mut s, 123);
    assert_eq!(s, "..ababcde07123");
}
