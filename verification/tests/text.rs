use foil::artifact::utf8;
use foil::executable::same_ignoring_case;
use foil::lifecycle::display_output;
use foil::text::{
    characters, decimal, find, lines, parse_usize, piece, same, split, starts_with, strip_prefix,
    trim, trim_end, trim_leading,
};

const TEXTS: [&str; 12] = [
    "",
    "a",
    "a,b",
    ",",
    ",,a,",
    " \t a \u{a0}\u{3000}\r\n",
    "one\ntwo\n",
    "one\r\ntwo",
    "\r\n\n",
    "ünï,cödé",
    "tail\r",
    "\u{200b}x\u{2028}",
];

#[test]
fn texts_split_as_in_the_standard_library() {
    for text in TEXTS {
        assert_eq!(split(text, ','), text.split(',').collect::<Vec<_>>());
        assert_eq!(lines(text), text.lines().collect::<Vec<_>>(), "{text:?}");
        assert_eq!(trim(text), text.trim());
        assert_eq!(trim_end(text), text.trim_end());
        assert_eq!(trim_leading(text, ','), text.trim_start_matches(','));
        assert_eq!(characters(text), text.chars().collect::<Vec<_>>());
        assert_eq!(
            find(&characters(text), ','),
            text.chars().position(|character| character == ',')
        );
        for other in TEXTS {
            assert_eq!(same(text, other), text == other);
            assert_eq!(starts_with(text, other), text.starts_with(other));
            assert_eq!(
                strip_prefix(text, other).as_deref(),
                text.strip_prefix(other)
            );
            assert_eq!(
                same_ignoring_case(text, other),
                text.eq_ignore_ascii_case(other)
            );
        }
    }
    assert_eq!(piece(&characters("héllo"), 1, 3), "él");
    assert!(same_ignoring_case("PaTh", "pATH"));
    assert!(!same_ignoring_case("ä", "Ä"));
    assert!(!same_ignoring_case("@", "`"));
}

#[test]
fn every_character_is_trimmed_as_white_space_is() {
    for code in 0..=0x10_ffff_u32 {
        if let Some(character) = char::from_u32(code) {
            if character.is_whitespace() || code < 0x3100 {
                let text = character.to_string();
                assert_eq!(trim(&text), text.trim(), "{code:x}");
                assert_eq!(trim_end(&text), text.trim_end(), "{code:x}");
            }
        }
    }
}

#[test]
fn numbers_are_written_and_read() {
    for number in [0, 1, 9, 10, 99, 100, 12345, 4294967296, u64::MAX] {
        assert_eq!(decimal(number), number.to_string());
        assert_eq!(parse_usize(&decimal(number)), Some(number as usize));
    }
    for text in [
        "",
        "+",
        "-",
        "+5",
        "++5",
        "-5",
        "007",
        " 5",
        "5 ",
        "18446744073709551615",
        "18446744073709551616",
        "99999999999999999999999",
        "1e3",
        "٣",
    ] {
        assert_eq!(parse_usize(text), text.parse().ok(), "{text}");
    }
}

#[test]
fn output_that_is_not_unicode_is_still_shown() {
    assert_eq!(
        display_output("x", &vec![0xc3, 0xa9, 0xff], &Vec::new()),
        "\n[x stdout]\né\u{fffd}"
    );
}

#[test]
fn a_command_that_is_not_unicode_is_not_recorded() {
    let command = vec![Some("git".to_owned()), Some("--version".to_owned())];
    assert_eq!(
        utf8("benchmark", &command).ok().unwrap(),
        ["git", "--version"]
    );
    assert_eq!(
        utf8("benchmark", &vec![Some("git".to_owned()), None]).err().unwrap(),
        "The benchmark command contains non-UTF-8 text."
    );
    assert!(utf8("suite startup", &Vec::new()).ok().unwrap().is_empty());
}
