use text_finder::{CharString, IntoPhrase, Phrase};

#[test]
fn joined_len() {
    let phrase = Phrase::from_str("Testing 123 testing");
    assert_eq!(19, phrase.joined_len());

    let phrase = Phrase::from_str("Testing");
    assert_eq!(7, phrase.joined_len());

    let phrase = Phrase::from_str("");
    assert_eq!(0, phrase.joined_len());

    let phrase = Phrase::from_str("Testing    123    testing");
    assert_eq!(19, phrase.joined_len());
}

#[test]
fn to_string_char_str() {
    let ch_str = CharString::from_str("Testing 123");
    assert_eq!(String::from("Testing 123"), ch_str.to_string());
}

#[test]
fn to_string_phrase() {
    let phrase = Phrase::from_str("Testing 123");
    assert_eq!(String::from("Testing 123"), phrase.to_string());

    let phrase = Phrase::from_str("Testing     123   ");
    assert_eq!(String::from("Testing 123"), phrase.to_string());
}

#[test]
fn wide_spacing_gives_same_tokens() {
    let narrow = Phrase::from_str("Testing 123 testing");
    let wide = Phrase::from_str("Testing    123    testing");
    assert_eq!(narrow.0.len(), 3);
    assert_eq!(wide.0.len(), 3);
    for i in 0..3 {
        assert_eq!(narrow.0[i].to_string(), wide.0[i].to_string());
    }
    assert_eq!(narrow.to_string(), wide.to_string());
}

#[test]
fn empty_and_single_token_lengths() {
    assert_eq!(Phrase::from_str("").0.len(), 0);
    assert_eq!(Phrase::from_str("    ").joined_len(), 0);
    assert_eq!(Phrase::from_str("  Testing ").joined_len(), 7);
    assert_eq!(Phrase::from_str("  Testing ").to_string(), "Testing");
}

#[test]
fn leading_spaces_are_dropped() {
    let phrase = Phrase::from_str("   a  bc d ");
    assert_eq!(phrase.to_string(), "a bc d");
    assert_eq!(phrase.joined_len(), 6);
}

#[test]
fn multibyte_characters_count_once() {
    let phrase = Phrase::from_str("héllo wörld");
    assert_eq!(phrase.joined_len(), 11);
    assert_eq!(CharString::from_str("é").0, vec!['é']);
}

#[test]
fn fits_within_limits() {
    let phrase = Phrase::from_str("ab cd");
    assert!(phrase.fits_within(5));
    assert!(!phrase.fits_within(4));
    assert!(Phrase::from_str("").fits_within(0));
}

#[test]
fn into_phrase_from_string_and_chars() {
    let s = String::from("one  two");
    assert_eq!(s.into_char_string().to_string(), "one two");
    let c = CharString::from_str(" x  y ");
    assert_eq!(c.into_char_string().to_string(), "x y");
    assert_eq!(c.into_char_string().joined_len(), 3);
}
