use archive_ui::text::{
    decimal_text, is_blank, is_white, lines_of, same_text, trim, trim_end,
};

#[test]
fn white_space_is_that_of_unicode() {
    for n in 0..=0x10ffff_u32 {
        if let Some(c) = char::from_u32(n) {
            assert_eq!(is_white(c), c.is_whitespace(), "{:x}", n);
        }
    }
}

#[test]
fn trimming() {
    let samples = [
        "",
        " ",
        "a",
        "  a b\t",
        "\u{a0}\u{3000}x\u{2028}",
        "\r\nx\r\n",
        "é \u{200b}",
        "\u{feff} x",
    ];
    for s in samples {
        assert_eq!(trim(s), s.trim());
        assert_eq!(trim_end(s), s.trim_end());
        assert_eq!(is_blank(s), s.trim().is_empty());
        assert_eq!(trim(trim(s)), trim(s));
    }
    assert_eq!(trim("  a b\t"), "a b");
    assert_eq!(trim_end("  a b\t"), "  a b");
}

#[test]
fn equal_texts() {
    assert!(same_text("available", "available"));
    assert!(!same_text("available", "not_available"));
    assert!(!same_text("", "x"));
}

#[test]
fn decimal_numbers() {
    for n in [0, 7, 9, 10, 42, 100, 90210, u32::MAX as u64, u64::MAX] {
        assert_eq!(decimal_text(n), n.to_string());
    }
}

#[test]
fn lines_without_blank_ones() {
    assert_eq!(lines_of(""), Vec::<String>::new());
    assert_eq!(lines_of("\n\n  \n"), Vec::<String>::new());
    assert_eq!(lines_of(" a \r\n\nb\n c"), vec!["a", "b", "c"]);
    assert_eq!(lines_of("only"), vec!["only"]);
}
