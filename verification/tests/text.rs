use launcher::text::{
    chars_of, compare, find_char, is_space_char, same_text, text_of, trim_slice, Order,
};

fn glyphs(text: &str) -> Vec<char> {
    text.chars().collect()
}

#[test]
fn chars_and_text_are_inverse() {
    let text = "aé—😀\n";
    assert_eq!(chars_of(text), vec!['a', 'é', '—', '😀', '\n']);
    assert_eq!(text_of(&chars_of(text)), text);
    assert_eq!(chars_of(""), Vec::<char>::new());
    assert_eq!(text_of(&[]), "");
}

#[test]
fn white_space_is_what_the_standard_library_calls_so() {
    let mut code: u32 = 0;
    while code <= 0x10FFFF {
        if let Some(c) = char::from_u32(code) {
            assert_eq!(is_space_char(c), c.is_whitespace(), "U+{:04X}", code);
        }
        code += 1;
    }
}

#[test]
fn find_char_gives_the_first_place_or_the_end() {
    let text = glyphs("a=b=c");
    assert_eq!(find_char(&text, 0, '='), 1);
    assert_eq!(find_char(&text, 1, '='), 1);
    assert_eq!(find_char(&text, 2, '='), 3);
    assert_eq!(find_char(&text, 4, '='), 5);
    assert_eq!(find_char(&text, 5, '='), 5);
    assert_eq!(find_char(&text, 0, 'z'), 5);
    assert_eq!(find_char(&[], 0, 'z'), 0);
}

#[test]
fn trim_slice_agrees_with_trim() {
    for text in ["", " ", "a", "  a b  ", "\t\r\nx\u{a0}", "\u{2003}\u{3000}", "x  ", "  x", " é "] {
        let all = glyphs(text);
        assert_eq!(text_of(trim_slice(&all)), text.trim(), "{:?}", text);
    }
}

#[test]
fn same_text_tells_equal_from_different() {
    assert!(same_text(&glyphs("Name"), &glyphs("Name")));
    assert!(same_text(&[], &[]));
    assert!(!same_text(&glyphs("Name"), &glyphs("name")));
    assert!(!same_text(&glyphs("Name"), &glyphs("Names")));
    assert!(!same_text(&glyphs("Names"), &glyphs("Name")));
}

#[test]
fn compare_orders_as_strings_are_ordered() {
    let samples = ["", "a", "A", "ab", "b", "B", "aa", "é", "z", "zz", "|", "a|b", "a|", "😀", "\u{ffff}", "~"];
    for a in samples {
        for b in samples {
            let want = if a < b {
                Order::Before
            } else if a == b {
                Order::Same
            } else {
                Order::After
            };
            assert_eq!(compare(&glyphs(a), &glyphs(b)), want, "{:?} against {:?}", a, b);
        }
    }
}
