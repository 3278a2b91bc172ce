use website::config::parse_number;
use website::number::format_number;
use website::sorting::sort_texts;
use website::text::{at_most, chars_of, contains, lower_chars, normalize, spells, trim};

fn strings(texts: &[&str]) -> Vec<String> {
    texts.iter().map(|s| s.to_string()).collect()
}

fn joined(chars: Vec<char>) -> String {
    chars.into_iter().collect()
}

#[test]
fn trim_takes_white_space_off_both_ends() {
    assert_eq!(trim("  example.com\t\r\n"), "example.com");
    assert_eq!(trim("\u{a0}\u{3000}a b\u{2003}"), "a b");
    assert_eq!(trim(""), "");
    assert_eq!(trim(" \n "), "");
    assert_eq!(trim("пример.рф "), "пример.рф");
}

#[test]
fn trim_agrees_with_std_on_every_character() {
    for c in '\u{0}'..=char::MAX {
        let text = format!("{c}x{c}");
        assert_eq!(trim(&text), text.trim());
    }
}

#[test]
fn lower_chars_changes_ascii_letters_alone() {
    assert_eq!(joined(lower_chars("ExAmPle-09.COM")), "example-09.com");
    assert_eq!(joined(lower_chars("ПРИМЕР Ä @[`{")), "ПРИМЕР Ä @[`{");
    for c in '\u{0}'..='\u{17f}' {
        let text = c.to_string();
        assert_eq!(joined(lower_chars(&text)), text.to_ascii_lowercase());
    }
}

#[test]
fn normalize_ignores_padding_and_case() {
    assert_eq!(joined(normalize("  DoMain ")), "domain");
    assert_eq!(normalize(" DoMain\n"), normalize("dOmAIN"));
    assert_eq!(normalize("domain"), normalize(&joined(normalize(" Domain "))));
}

#[test]
fn spells_compares_whole_texts() {
    assert!(spells(&chars_of("subnet"), "subnet"));
    assert!(!spells(&chars_of("subnet"), "subne"));
    assert!(!spells(&chars_of("subnet"), "subnets"));
    assert!(!spells(&chars_of("subnet"), "subnut"));
    assert!(spells(&chars_of(""), ""));
}

#[test]
fn contains_agrees_with_std() {
    let texts = ["", "a", "ab", "ba", "aab", "abab", "bbab", "ünï", "nï", "aaaab"];
    for part in texts {
        for whole in texts {
            assert_eq!(
                contains(&chars_of(part), &chars_of(whole)),
                whole.contains(part),
                "{part} in {whole}"
            );
        }
    }
}

#[test]
fn order_of_strings_agrees_with_std() {
    let texts = ["", "a", "A", "aa", "ab", "b", "я", "z", "\u{ffff}", "\u{10000}", "é", "e"];
    for a in texts {
        for b in texts {
            assert_eq!(at_most(&a.to_string(), &b.to_string()), a <= b, "{a} and {b}");
        }
    }
}

#[test]
fn sort_texts_agrees_with_std() {
    let mut seed: u64 = 7;
    for n in 0..60usize {
        let mut list = Vec::new();
        for _ in 0..n {
            seed = seed.wrapping_mul(6364136223846793005).wrapping_add(1442695040888963407);
            list.push(format!("{}.{}", ["a", "b", "я", "Z"][(seed >> 33) as usize % 4], (seed >> 40) % 9));
        }
        let mut expected = list.clone();
        expected.sort();
        assert_eq!(sort_texts(list), expected);
    }
    assert_eq!(sort_texts(strings(&["b", "a", "b"])), strings(&["a", "b", "b"]));
}

#[test]
fn numbers_are_grouped_by_three() {
    assert_eq!(format_number(0), "0");
    assert_eq!(format_number(7), "7");
    assert_eq!(format_number(999), "999");
    assert_eq!(format_number(1000), "1 000");
    assert_eq!(format_number(1001), "1 001");
    assert_eq!(format_number(12345), "12 345");
    assert_eq!(format_number(100000), "100 000");
    assert_eq!(format_number(1234567), "1 234 567");
    assert_eq!(format_number(18446744073709551615), "18 446 744 073 709 551 615");
}

#[test]
fn grouped_numbers_read_back() {
    let mut n: usize = 1;
    for i in 0..63usize {
        let shown = format_number(n + i);
        assert_eq!(shown.replace(' ', ""), (n + i).to_string());
        for (k, c) in shown.chars().rev().enumerate() {
            assert_eq!(c == ' ', k % 4 == 3);
        }
        n *= 2;
    }
}

#[test]
fn numbers_are_parsed_as_std_does() {
    let texts = [
        "", "+", "-", "0", "00", "+0", "7", "+7", "-7", "++7", "7+", " 7", "7 ", "1_0", "0x1",
        "21600", "4294967295", "4294967296", "18446744073709551615", "18446744073709551616",
        "99999999999999999999999999", "00000000000000000000000000001", "٣", "1.0", "1e3",
    ];
    for text in texts {
        assert_eq!(parse_number(text, u64::MAX), text.parse::<u64>().ok(), "{text}");
        assert_eq!(
            parse_number(text, u32::MAX as u64),
            text.parse::<u32>().ok().map(u64::from),
            "{text}"
        );
        assert_eq!(
            parse_number(text, u8::MAX as u64),
            text.parse::<u8>().ok().map(u64::from),
            "{text}"
        );
    }
    assert_eq!(parse_number("6", 5), None);
    assert_eq!(parse_number("5", 5), Some(5));
    assert_eq!(parse_number("0", 0), Some(0));
}
