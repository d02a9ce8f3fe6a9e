use ps3dec::text::{chars_of, find_text, string_of};

#[test]
fn a_string_is_its_characters() {
    assert_eq!(chars_of("a\u{e9}\u{30b2}!"), vec!['a', '\u{e9}', '\u{30b2}', '!']);
    assert_eq!(chars_of(""), Vec::<char>::new());
    assert_eq!(string_of(&['x', '\u{1F600}', 'y']), "x\u{1F600}y");
    assert_eq!(string_of(&[]), "");
    assert_eq!(string_of(&chars_of("round trip")), "round trip");
}

#[test]
fn the_first_place_is_found() {
    let hay = chars_of("abcabcabd");
    assert_eq!(find_text(&hay, &chars_of("abc")), Some(0));
    assert_eq!(find_text(&hay, &chars_of("bca")), Some(1));
    assert_eq!(find_text(&hay, &chars_of("abd")), Some(6));
    assert_eq!(find_text(&hay, &chars_of("abcabcabd")), Some(0));
    assert_eq!(find_text(&hay, &chars_of("d")), Some(8));
}

#[test]
fn what_does_not_occur_is_not_found() {
    let hay = chars_of("abcabcabd");
    assert_eq!(find_text(&hay, &chars_of("abe")), None);
    assert_eq!(find_text(&hay, &chars_of("abcabcabda")), None);
    assert_eq!(find_text(&hay, &chars_of("dd")), None);
    assert_eq!(find_text(&[], &chars_of("a")), None);
}

#[test]
fn the_empty_text_is_found_at_the_start() {
    assert_eq!(find_text(&chars_of("abc"), &[]), Some(0));
    assert_eq!(find_text(&[], &[]), Some(0));
}
