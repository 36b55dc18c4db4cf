use username_crawler::links::{extract, extract_hash, extract_username, LinkType};

#[test]
fn test_extract_username() {
    let link = "https://t.me/grammers";
    let username = extract(link);
    assert_eq!(username, Some(LinkType::Username("grammers".to_string())));
}

#[test]
fn test_extract_username_with_query() {
    let link = "https://t.me/grammers?start=123";
    let username = extract(link);
    assert_eq!(username, Some(LinkType::Username("grammers".to_string())));
}

#[test]
fn test_joined_username() {
    let link = "https://t.me/joinchat/USpx-sviNKIj408g";
    let username = extract(link);
    assert_eq!(username, Some(LinkType::Hash("USpx-sviNKIj408g".to_string())));
}

#[test]
fn test_invite_link() {
    let link = "https://t.me/+_DGX2NIt9IhkNTVk";
    let username = extract(link);
    assert_eq!(username, Some(LinkType::Hash("_DGX2NIt9IhkNTVk".to_string())));
}

#[test]
fn reserved_segments_are_never_public_names() {
    for link in [
        "https://t.me/joinchat",
        "https://t.me/addstickers",
        "https://t.me/addemoji",
        "https://t.me/addtheme",
        "https://t.me/share",
        "https://t.me/socks",
        "https://t.me/proxy",
        "https://t.me/bg",
        "https://t.me/login",
        "https://t.me/invoice",
        "https://t.me/setlanguage",
        "https://t.me/confirmphone",
        "https://t.me/path",
        "https://t.me/c",
    ] {
        assert_eq!(extract(link), None);
    }
}

#[test]
fn reserved_segment_with_trailing_path_still_refused() {
    // the capture stops at `/`, so the segment is the reserved word itself
    assert_eq!(extract("https://t.me/share/xyz"), None);
    assert_eq!(extract("https://t.me/c/1234"), None);
}

#[test]
fn plain_name_case_is_preserved() {
    assert_eq!(
        extract("https://t.me/GramMers"),
        Some(LinkType::Username("GramMers".to_string()))
    );
}

#[test]
fn leftmost_match_wins() {
    // the first prefix occurrence is not followed by a name character,
    // so the later full match decides
    assert_eq!(
        extract("see https://t.me/ and https://t.me/abc"),
        Some(LinkType::Username("abc".to_string()))
    );
    // with two full matches the first decides
    assert_eq!(
        extract("https://t.me/first https://t.me/second"),
        Some(LinkType::Username("first".to_string()))
    );
}

#[test]
fn surrounding_text_is_ignored() {
    assert_eq!(
        extract("check https://t.me/alpha"),
        Some(LinkType::Username("alpha".to_string()))
    );
}

#[test]
fn no_prefix_means_nothing() {
    assert_eq!(extract("no links here"), None);
    assert_eq!(extract(""), None);
    assert_eq!(extract("https://t.me/"), None);
}

#[test]
fn invite_token_needs_a_token_character() {
    assert_eq!(extract("https://t.me/+!x"), None);
    assert_eq!(extract("https://t.me/joinchat/"), None);
}

#[test]
fn extract_username_skips_reserved() {
    assert_eq!(extract_username("https://t.me/share"), None);
    assert_eq!(
        extract_username("https://t.me/alpha_7"),
        Some("alpha_7".to_string())
    );
}

#[test]
fn extract_hash_takes_second_group() {
    assert_eq!(
        extract_hash("https://t.me/joinchat/tok-en"),
        Some("tok-en".to_string())
    );
    assert_eq!(extract_hash("https://t.me/+abc123"), Some("abc123".to_string()));
    assert_eq!(extract_hash("https://t.me/plain"), None);
}

#[test]
fn identifier_is_returned_by_to_string() {
    assert_eq!(LinkType::Username("Abc".to_string()).to_string(), "Abc");
    assert_eq!(LinkType::Hash("x-1".to_string()).to_string(), "x-1");
    assert_eq!(LinkType::Mention("bob".to_string()).to_string(), "bob");
}
