use mpx::text::{
    begins_with, contains, control, decimal, finishes_with, join, push_padded, split_fields,
    split_lines, split_segments, trim, trim_start, white,
};

#[test]
fn white_space_and_control_characters_are_those_of_std() {
    for n in 0..=0x10ffffu32 {
        if let Some(c) = char::from_u32(n) {
            assert_eq!(white(c), c.is_whitespace(), "U+{n:04X}");
            assert_eq!(control(c), c.is_control(), "U+{n:04X}");
        }
    }
}

#[test]
fn texts_are_taken_apart_as_std_does() {
    let samples = [
        "",
        " ",
        "\n",
        "\r\n",
        "a",
        "a\n",
        "a\r\n",
        "a\r",
        "\ra\n\nb\r\r\nc",
        "  one\ttwo \u{a0}three\u{3000}",
        "é ü\nπ\u{2028}x",
        "x\ny\r\nz",
    ];
    for s in samples {
        assert_eq!(split_lines(s), s.lines().collect::<Vec<_>>(), "{s:?}");
        let segments = split_segments(s);
        assert_eq!(segments, s.split_inclusive('\n').collect::<Vec<_>>(), "{s:?}");
        assert_eq!(segments.concat(), s);
        assert_eq!(split_fields(s), s.split_whitespace().collect::<Vec<_>>(), "{s:?}");
        assert_eq!(trim(s), s.trim(), "{s:?}");
        assert_eq!(trim_start(s), s.trim_start(), "{s:?}");
        for part in ["", "a", "é", "one", "\n", "z"] {
            assert_eq!(contains(s, part), s.contains(part), "{s:?} {part:?}");
            assert_eq!(begins_with(s, part), s.starts_with(part), "{s:?} {part:?}");
            assert_eq!(finishes_with(s, part), s.ends_with(part), "{s:?} {part:?}");
        }
    }
}

#[test]
fn joining_puts_the_separator_between() {
    let parts = |list: &[&str]| list.iter().map(|s| s.to_string()).collect::<Vec<_>>();
    assert_eq!(join(&parts(&[]), ", "), "");
    assert_eq!(join(&parts(&["a"]), ", "), "a");
    assert_eq!(join(&parts(&["a", "", "c"]), ", "), "a, , c");
}

#[test]
fn numbers_in_decimal() {
    for n in [0, 7, 10, 99, 100, 65535, 1_000_000, u64::MAX] {
        assert_eq!(decimal(n), n.to_string());
    }
    for (n, width, expected) in [(5u64, 2usize, "05"), (42, 2, "42"), (123, 2, "123"), (7, 6, "000007"), (3, 0, "3")] {
        let mut out = String::from(">");
        push_padded(&mut out, n, width);
        assert_eq!(out, format!(">{expected}"));
    }
}
