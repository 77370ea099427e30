use vertex_puzzle::text::{chars_of, is_float_token, is_space, parse_bounded, split_whitespace};

fn chars(s: &str) -> Vec<char> {
    s.chars().collect()
}

#[test]
fn splitting_agrees_with_the_standard_library() {
    let lines = [
        "",
        " ",
        "a",
        "  a  ",
        "0 1 2 0",
        "\t1.5\u{3000}2\u{a0}x\r\n",
        "a\u{2003}b\u{85}c\u{1680}d\u{2028}e\u{2029}f\u{202f}g\u{205f}h",
        "a\u{200b}b \u{feff}c",
        "\u{b}\u{c}x\u{1c}y",
    ];
    for line in lines.iter() {
        let ours: Vec<String> =
            split_whitespace(line).iter().map(|t| t.iter().collect::<String>()).collect();
        let theirs: Vec<String> = line.split_whitespace().map(|t| t.to_string()).collect();
        assert_eq!(ours, theirs);
    }
}

#[test]
fn splitting_gives_the_tokens_in_order() {
    assert_eq!(split_whitespace("  12  ab\t3 "), vec![chars("12"), chars("ab"), chars("3")]);
    assert!(split_whitespace(" \t ").is_empty());
}

#[test]
fn whitespace_agrees_with_the_standard_library() {
    for n in 0..0x11_0000u32 {
        if let Some(c) = char::from_u32(n) {
            assert_eq!(is_space(c), c.is_whitespace());
        }
    }
}

#[test]
fn chars_of_lists_the_characters() {
    assert_eq!(chars_of("a\u{e9}\u{1f600} b"), chars("a\u{e9}\u{1f600} b"));
    assert!(chars_of("").is_empty());
}

#[test]
fn numbers_agree_with_the_standard_library() {
    let tokens = [
        "", "+", "-", "0", "00", "+0", "-0", "7", "42", "255", "256", "+255", "0255", "65535",
        "4294967295", "4294967296", "+4294967295", "99999999999999999999", "1a", "a1", "1 ", " 1",
        "1.0", "1e3", "++1", "+-1", "0x10", "١٢", "1_000", "１",
    ];
    for t in tokens.iter() {
        assert_eq!(parse_bounded(&chars(t), u32::MAX), t.parse::<u32>().ok());
        assert_eq!(parse_bounded(&chars(t), 255), t.parse::<u8>().ok().map(|n| n as u32));
    }
}

#[test]
fn numbers_have_their_decimal_value() {
    assert_eq!(parse_bounded(&chars("0"), 255), Some(0));
    assert_eq!(parse_bounded(&chars("+007"), 255), Some(7));
    assert_eq!(parse_bounded(&chars("255"), 255), Some(255));
    assert_eq!(parse_bounded(&chars("256"), 255), None);
    assert_eq!(parse_bounded(&chars("4294967295"), u32::MAX), Some(4294967295));
    assert_eq!(parse_bounded(&chars("12"), 11), None);
    assert_eq!(parse_bounded(&chars("12"), 12), Some(12));
}

#[test]
fn float_literals_agree_with_the_standard_library() {
    let tokens = [
        "", "+", "-", ".", "+.", "-.", "e", "e5", "E5", ".e5", "0", "-0", "+0", "1", "12", "1.",
        ".1", "1.5", "-1.5", "+1.5", "1..5", "1.5.", "1e5", "1E5", "1e+5", "1e-5", "1e", "1e+",
        "1e-", "1e5.", "1e5e5", "1.e5", ".5e5", ".e", "1.5e10", "1e999", "1e-999", "--1", "+-1",
        "-+1", "1-", "1+", "inf", "INF", "Inf", "+inf", "-inf", "infinity", "INFINITY",
        "-Infinity", "infinit", "infinityy", "in", "nan", "NaN", "NAN", "+nan", "-nan", "nann",
        "na", "0x10", "1_0", "1f", "1f32", "1,5", "١", "1e١", " 1", "1 ", "1e5 ", "1.5e", "٫5",
        "0.0000000000000000000000000000000000000000000000001", "123456789012345678901234567890",
        "i", "n", "infi", "+", "+e5", "-.5", "-5.", "-.e5", "5.e", "5.e+", "5.e+1", "5e.1",
        "\u{130}nf", "\u{212a}", "ınf",
    ];
    for t in tokens.iter() {
        assert_eq!(is_float_token(&chars(t)), t.parse::<f32>().is_ok(), "{:?}", t);
    }
}

#[test]
fn float_literals_by_example() {
    for t in ["0", "-1.25", "+.5", "5.", "1e3", "2.5E-3", "inf", "-Infinity", "NaN"].iter() {
        assert!(is_float_token(&chars(t)));
    }
    for t in ["", ".", "e3", "1e", "1.2.3", "--1", "nano", "0x1"].iter() {
        assert!(!is_float_token(&chars(t)));
    }
}
