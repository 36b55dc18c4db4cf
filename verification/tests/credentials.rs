use username_crawler::credentials::ApiCredentials;

#[test]
fn credentials_hand_back_their_parts() {
    let c = ApiCredentials::new(424242, "0123456789abcdef".to_string());
    assert_eq!(c.api_id(), 424242);
    assert_eq!(c.api_hash(), "0123456789abcdef");
}

#[test]
fn credentials_accept_negative_ids() {
    let c = ApiCredentials::new(-1, String::new());
    assert_eq!(c.api_id(), -1);
    assert_eq!(c.api_hash(), "");
}
