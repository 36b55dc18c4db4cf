use username_crawler::links::LinkType;
use username_crawler::mentions::{classify_mention, MentionSpan};
use username_crawler::utf16::{decode_utf16_range, utf16_units};

#[test]
fn mention_over_ascii_text() {
    // "hello @Bob how are you": the annotation covers "@Bob"
    let r = classify_mention(
        "hello @Bob how are you",
        MentionSpan { offset: 6, length: 4 },
    );
    assert_eq!(r, LinkType::Mention("bob".to_string()));
}

#[test]
fn mention_strips_every_leading_sigil_and_trims() {
    let r = classify_mention("x @@Wide  y", MentionSpan { offset: 2, length: 8 });
    assert_eq!(r, LinkType::Mention("wide".to_string()));
}

#[test]
fn mention_offsets_count_utf16_units() {
    // the emoji occupies two code units, so the mention starts at unit 3
    let r = classify_mention("\u{1F600} @Bob", MentionSpan { offset: 3, length: 4 });
    assert_eq!(r, LinkType::Mention("bob".to_string()));
}

#[test]
fn mention_keeps_underscores_and_digits() {
    let r = classify_mention("@A_user99", MentionSpan { offset: 0, length: 9 });
    assert_eq!(r, LinkType::Mention("a_user99".to_string()));
}

#[test]
fn mention_split_surrogate_becomes_replacement() {
    // a window covering only the first half of the emoji's pair
    let r = classify_mention("a\u{1F600}b", MentionSpan { offset: 1, length: 1 });
    assert_eq!(r, LinkType::Mention("\u{FFFD}".to_string()));
}

#[test]
fn utf16_encoding_matches_std() {
    let text = "a\u{1F600}é";
    let expected: Vec<u16> = text.encode_utf16().collect();
    assert_eq!(utf16_units(text), expected);
}

#[test]
fn utf16_decoding_roundtrips() {
    let text = "père \u{1F680} ok";
    let units = utf16_units(text);
    let n = units.len();
    let chars = decode_utf16_range(&units, 0, n);
    let back: String = chars.into_iter().collect();
    assert_eq!(back, text);
}
