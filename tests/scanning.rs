use text_finder::{ByteOrder, ConfigError, Phrase, PhraseInstance, TextFinder, WidthSet};

fn widths(one: bool, two: bool, four: bool) -> WidthSet {
    WidthSet { one, two, four }
}

fn utf32le(s: &str) -> Vec<u8> {
    let mut out = Vec::new();
    for c in s.chars() {
        out.extend_from_slice(&(c as u32).to_le_bytes());
    }
    out
}

fn utf16be(s: &str) -> Vec<u8> {
    let mut out = Vec::new();
    for c in s.chars() {
        out.extend_from_slice(&(c as u16).to_be_bytes());
    }
    out
}

#[test]
fn phrase_longer_than_context_is_rejected() {
    let phrases = vec![Phrase::from_str("abc"), Phrase::from_str("hello world")];
    let r = TextFinder::new(phrases, 10, widths(true, false, false), ByteOrder::Little);
    assert_eq!(r.err(), Some(ConfigError::PhraseTooLong { index: 1 }));

    let phrases = vec![Phrase::from_str("hello world")];
    assert!(TextFinder::new(phrases, 11, widths(true, false, false), ByteOrder::Little).is_ok());
}

#[test]
fn empty_width_selection_is_rejected() {
    let phrases = vec![Phrase::from_str("hello world")];
    let r = TextFinder::new(phrases, 2, widths(false, false, false), ByteOrder::Big);
    assert_eq!(r.err(), Some(ConfigError::NoWidths));
}

#[test]
fn width_bits() {
    assert_eq!(WidthSet::from_bits(8), Err(ConfigError::InvalidWidth));
    assert_eq!(WidthSet::from_bits(0b101), Ok(widths(true, false, true)));
    assert_eq!(WidthSet::from_bits(0b010), Ok(widths(false, true, false)));
    assert_eq!(WidthSet::from_bits(0), Ok(widths(false, false, false)));
}

#[test]
fn one_match_among_noise() {
    let phrases = vec![Phrase::from_str("other"), Phrase::from_str("hello world")];
    let mut f = TextFinder::new(phrases, 16, widths(true, false, false), ByteOrder::Little).unwrap();
    let mut bytes = vec![0xffu8, 0x00, 0x13];
    bytes.extend_from_slice(b"hello world");
    bytes.extend_from_slice(&[0x01, 0x02, 0xfe, b'h', b'e']);
    assert!(f.feed(&bytes).is_empty());
    assert_eq!(f.consumed(), bytes.len());
    assert_eq!(
        f.finish(),
        vec![PhraseInstance {
            index: 1,
            pos: 3,
            context: String::from("\u{ff}\u{0}\u{13}hello world\u{1}\u{2}\u{fe}he"),
        }]
    );
}

#[test]
fn widths_one_and_four_in_two_regions() {
    let phrases = vec![Phrase::from_str("find me")];
    let mut f = TextFinder::new(phrases, 8, widths(true, false, true), ByteOrder::Little).unwrap();
    let mut bytes = vec![7u8, 9];
    bytes.extend_from_slice(b"find me");
    bytes.extend_from_slice(&[0u8; 11]);
    let second = bytes.len();
    bytes.extend_from_slice(&utf32le("find me"));
    bytes.extend_from_slice(&[3u8, 4, 5]);
    let mut found = f.feed(&bytes);
    found.extend(f.finish());
    assert_eq!(found.len(), 2);
    assert_eq!((found[0].index, found[0].pos), (0, 2));
    assert_eq!((found[1].index, found[1].pos), (0, second));
    assert_eq!(found[0].context, "\u{7}\u{9}find me\u{0}\u{0}\u{0}\u{0}\u{0}\u{0}\u{0}\u{0}");
    assert!(found[1].context.ends_with("find me"));
}

#[test]
fn window_size_stays_bounded() {
    let phrases = vec![Phrase::from_str("zz")];
    let mut f = TextFinder::new(phrases, 5, widths(true, true, true), ByteOrder::Big).unwrap();
    let chunk: Vec<u8> = (0..20u8).collect();
    for round in 0..10 {
        let found = f.feed(&chunk);
        assert!(found.is_empty());
        assert!(f.retained_len() <= 20);
        if round > 0 {
            assert_eq!(f.retained_len(), 20);
        }
    }
    assert_eq!(f.consumed(), 200);
}

#[test]
fn match_across_eviction_boundary() {
    let phrases = vec![Phrase::from_str("abcd")];
    let mut f = TextFinder::new(phrases, 4, widths(false, false, true), ByteOrder::Little).unwrap();
    let noise = [1u8, 2, 3, 4, 5, 6, 7];
    let encoded = utf32le("abcd");
    assert!(f.feed(&noise).is_empty());
    assert!(f.feed(&encoded[..6]).is_empty());
    assert!(f.feed(&encoded[6..]).is_empty());
    assert_eq!(f.retained_len(), 16);
    assert_eq!(
        f.finish(),
        vec![PhraseInstance { index: 0, pos: 7, context: String::from("abcd") }]
    );
}

#[test]
fn big_endian_two_byte_units() {
    let phrases = vec![Phrase::from_str("hi there")];
    let mut little = TextFinder::new(phrases.clone(), 8, widths(false, true, false), ByteOrder::Little).unwrap();
    let mut big = TextFinder::new(phrases, 8, widths(false, true, false), ByteOrder::Big).unwrap();
    let mut bytes = vec![0xaau8];
    bytes.extend_from_slice(&utf16be("hi there"));
    assert!(little.feed(&bytes).is_empty());
    assert!(little.finish().is_empty());
    assert!(big.feed(&bytes).is_empty());
    let found = big.finish();
    assert_eq!(found.len(), 1);
    assert_eq!(found[0].pos, 1);
}

#[test]
fn context_is_clipped_to_context_size() {
    let phrases = vec![Phrase::from_str("ab")];
    let mut f = TextFinder::new(phrases, 3, widths(true, false, false), ByteOrder::Little).unwrap();
    assert!(f.feed(b"0123456789ab").is_empty());
    assert_eq!(
        f.finish(),
        vec![PhraseInstance { index: 0, pos: 10, context: String::from("789ab") }]
    );
}

#[test]
fn undecodable_unit_becomes_replacement() {
    let phrases = vec![Phrase::from_str("a")];
    let mut f = TextFinder::new(phrases, 2, widths(false, true, false), ByteOrder::Little).unwrap();
    assert!(f.feed(&[0x00, 0xd8, b'a', 0x00]).is_empty());
    let found = f.finish();
    assert_eq!(found.len(), 1);
    assert_eq!(found[0].pos, 2);
    assert_eq!(found[0].context, "\u{fffd}a");
}

#[test]
fn same_end_reports_by_phrase_then_width() {
    let phrases = vec![Phrase::from_str("b"), Phrase::from_str("ab")];
    let mut f = TextFinder::new(phrases, 4, widths(true, false, false), ByteOrder::Little).unwrap();
    let found = f.push_byte(b'a');
    assert!(found.is_empty());
    assert!(f.push_byte(b'b').is_empty());
    let found = f.finish();
    assert_eq!(found.len(), 2);
    assert_eq!((found[0].index, found[0].pos), (0, 1));
    assert_eq!((found[1].index, found[1].pos), (1, 0));
}

#[test]
fn identical_decodes_under_two_widths_are_both_reported() {
    let phrases = vec![Phrase::from_str("\u{0}")];
    let mut f = TextFinder::new(phrases, 1, widths(true, true, false), ByteOrder::Little).unwrap();
    let mut found = f.feed(&[0, 0]);
    assert_eq!(found.len(), 1);
    found.extend(f.finish());
    assert_eq!(found.len(), 3);
    assert_eq!((found[0].pos, found[1].pos, found[2].pos), (0, 1, 0));
}

#[test]
fn chunked_feed_matches_whole_feed() {
    let phrases = vec![Phrase::from_str("ab ba"), Phrase::from_str("b")];
    let all_widths = widths(true, true, true);
    let mut bytes = b"xxab bayyb".to_vec();
    bytes.extend_from_slice(&utf32le("ab ba"));
    bytes.extend_from_slice(&utf16be("ab ba"));
    let mut whole = TextFinder::new(phrases.clone(), 6, all_widths, ByteOrder::Little).unwrap();
    let mut expected = whole.feed(&bytes);
    expected.extend(whole.finish());
    assert!(expected.len() >= 4);
    let mut chunked = TextFinder::new(phrases, 6, all_widths, ByteOrder::Little).unwrap();
    let mut got = Vec::new();
    for part in bytes.chunks(3) {
        got.extend(chunked.feed(part));
    }
    got.extend(chunked.finish());
    assert_eq!(got, expected);
}

#[test]
fn trailing_context_is_reported_once_complete() {
    let phrases = vec![Phrase::from_str("ab")];
    let mut f = TextFinder::new(phrases, 3, widths(true, false, false), ByteOrder::Little).unwrap();
    assert!(f.feed(b"0123456789abXY").is_empty());
    let found = f.push_byte(b'Z');
    assert_eq!(
        found,
        vec![PhraseInstance { index: 0, pos: 10, context: String::from("789abXYZ") }]
    );
    assert!(f.push_byte(b'W').is_empty());
    assert!(f.finish().is_empty());
}

#[test]
fn instances_come_in_discovery_order() {
    let phrases = vec![Phrase::from_str("ab"), Phrase::from_str("c")];
    let mut f = TextFinder::new(phrases, 2, widths(true, false, true), ByteOrder::Little).unwrap();
    let mut bytes = b"ab".to_vec();
    bytes.extend_from_slice(&[b'c', 0, 0, 0]);
    let mut found = f.feed(&bytes);
    assert_eq!(found.len(), 2);
    assert_eq!((found[0].index, found[0].pos), (0, 0));
    assert_eq!(found[0].context, "abc\u{0}");
    found.extend(f.finish());
    assert_eq!(found.len(), 3);
    assert_eq!((found[1].index, found[1].pos), (1, 2));
    assert_eq!((found[2].index, found[2].pos), (1, 2));
}

#[test]
fn oversized_context_is_rejected() {
    let phrases = vec![Phrase::from_str("a")];
    let r = TextFinder::new(phrases, usize::MAX / 8 + 1, widths(true, false, false), ByteOrder::Little);
    assert_eq!(r.err(), Some(ConfigError::ContextTooLarge));
}
