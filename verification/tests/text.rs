use shitmail_jmap_filter::text::{
    begins_with, chars_of, ends_with, first_word_of, join_with, lower_of, same, same_ignore_case,
    split_at_char, split_at_first, split_at_last, string_of, strip_of, trim, CharClass,
};

#[test]
fn whitespace_is_that_of_unicode() {
    for n in 0..=0x10ffff_u32 {
        if let Some(c) = char::from_u32(n) {
            assert_eq!(CharClass::White.contains(c), c.is_whitespace(), "{:x}", n);
            assert_eq!(CharClass::AsciiWhite.contains(c), c.is_ascii_whitespace(), "{:x}", n);
        }
    }
}

#[test]
fn strings_go_to_characters_and_back() {
    for s in ["", "a", "Grüße, 日本 \u{1f600}"] {
        assert_eq!(chars_of(s), s.chars().collect::<Vec<char>>());
        assert_eq!(string_of(&chars_of(s)), s);
    }
}

#[test]
fn operations_agree_with_std() {
    for s in ["", " ", "a", " A.b ", "..", ".a.", "x.y.z", "\u{2003}É.é\n", "A;B;;c", "@", "a@b@c"] {
        let c = chars_of(s);
        assert_eq!(string_of(trim(&c)), s.trim());
        assert_eq!(string_of(&lower_of(&c)), s.to_ascii_lowercase());
        assert_eq!(string_of(strip_of(&c, &CharClass::Only('.'))), s.trim_matches('.'));
        assert_eq!(
            first_word_of(&c, &CharClass::White).map(string_of),
            s.split_whitespace().next().map(|w| w.to_string())
        );
        let pieces: Vec<String> = split_at_char(&c, '.').iter().map(|p| string_of(p)).collect();
        assert_eq!(pieces, s.split('.').map(|p| p.to_string()).collect::<Vec<String>>());
        assert_eq!(
            split_at_first(&c, '@').map(|(a, b)| (string_of(a), string_of(b))),
            s.split_once('@').map(|(a, b)| (a.to_string(), b.to_string()))
        );
        assert_eq!(
            split_at_last(&c, '@').map(|(a, b)| (string_of(a), string_of(b))),
            s.rsplit_once('@').map(|(a, b)| (a.to_string(), b.to_string()))
        );
        assert_eq!(begins_with(&c, &chars_of("a")), s.starts_with('a'));
        assert_eq!(ends_with(&c, &chars_of(".z")), s.ends_with(".z"));
        assert_eq!(same_ignore_case(&c, &chars_of("A")), s.eq_ignore_ascii_case("A"));
        assert_eq!(same(&c, &chars_of("a")), s == "a");
    }
}

#[test]
fn join_and_split_undo_each_other() {
    for s in ["", ".", "a.b", "..a", "a..b."] {
        assert_eq!(string_of(&join_with(&split_at_char(&chars_of(s), '.'), '.')), s);
    }
    let pieces = vec![chars_of("x"), chars_of(""), chars_of("yz")];
    assert_eq!(split_at_char(&join_with(&pieces, '.'), '.'), pieces);
}
