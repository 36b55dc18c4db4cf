use username_crawler::aggregate::{Aggregator, Username, UsernameMetadata, UsernameType};
use username_crawler::crawl::{extract_link, extract_mentions, ingest_message};
use username_crawler::links::LinkType;
use username_crawler::mentions::MentionSpan;

#[test]
fn fresh_record_starts_at_one() {
    let u = Username::new(LinkType::Username("Alpha".to_string()));
    assert_eq!(u.count, 1);
    assert!(u.metadata.is_none());
    assert_eq!(u.username, LinkType::Username("Alpha".to_string()));
}

#[test]
fn counts_equal_events_per_identity() {
    // events for one identity interleaved with others: the final count
    // is the number of events for that identity
    let mut agg = Aggregator::new();
    agg.record(LinkType::Username("Alpha".to_string()));
    agg.record(LinkType::Hash("x".to_string()));
    agg.record(LinkType::Mention("alpha".to_string()));
    agg.record(LinkType::Username("beta".to_string()));
    agg.record(LinkType::Username("ALPHA".to_string()));
    assert_eq!(agg.events(), 5);
    assert_eq!(agg.len(), 3);
    let records = agg.into_records();
    let alpha = records
        .iter()
        .find(|u| u.username == LinkType::Username("Alpha".to_string()))
        .expect("alpha record");
    assert_eq!(alpha.count, 3);
    let x = records
        .iter()
        .find(|u| u.username == LinkType::Hash("x".to_string()))
        .expect("hash record");
    assert_eq!(x.count, 1);
}

#[test]
fn first_seen_variant_is_remembered() {
    let mut agg = Aggregator::new();
    agg.record(LinkType::Mention("carol".to_string()));
    agg.record(LinkType::Username("Carol".to_string()));
    let records = agg.into_records();
    assert_eq!(records.len(), 1);
    assert_eq!(records[0].username, LinkType::Mention("carol".to_string()));
    assert_eq!(records[0].count, 2);
}

#[test]
fn set_metadata_never_touches_count() {
    let mut u = Username::new(LinkType::Username("alpha".to_string()));
    u.count = 7;
    u.set_metadata(UsernameMetadata::new("Alpha Chat".to_string(), UsernameType::Channel));
    assert_eq!(u.count, 7);
    assert_eq!(u.username, LinkType::Username("alpha".to_string()));
    let m = u.metadata.expect("metadata");
    assert_eq!(m.name, "Alpha Chat");
    assert_eq!(m.type_, UsernameType::Channel);
}

#[test]
fn aggregated_casefolded_count_reaches_three() {
    // "check https://t.me/alpha" twice and "check https://t.me/ALPHA"
    // once aggregate to one record under the identity `alpha`, count 3
    let mut agg = Aggregator::new();
    extract_link("check https://t.me/alpha", &mut agg);
    extract_link("check https://t.me/alpha", &mut agg);
    extract_link("check https://t.me/ALPHA", &mut agg);
    assert_eq!(agg.events(), 3);
    let records = agg.into_records();
    assert_eq!(records.len(), 1);
    assert_eq!(records[0].count, 3);
    assert_eq!(records[0].username, LinkType::Username("alpha".to_string()));
}

#[test]
fn extract_link_without_link_records_nothing() {
    let mut agg = Aggregator::new();
    extract_link("nothing to see", &mut agg);
    assert_eq!(agg.events(), 0);
    assert_eq!(agg.len(), 0);
}

#[test]
fn extract_mentions_records_each_annotation() {
    let mut agg = Aggregator::new();
    let text = "hi @Ann and @ann again";
    let spans = vec![
        MentionSpan { offset: 3, length: 4 },
        MentionSpan { offset: 12, length: 4 },
    ];
    extract_mentions(text, &spans, &mut agg);
    assert_eq!(agg.events(), 2);
    let records = agg.into_records();
    assert_eq!(records.len(), 1);
    assert_eq!(records[0].count, 2);
    assert_eq!(records[0].username, LinkType::Mention("ann".to_string()));
}

#[test]
fn ingest_message_takes_link_and_mentions() {
    let mut agg = Aggregator::new();
    let text = "join https://t.me/alpha or ask @alpha / @Beta";
    let spans = vec![
        MentionSpan { offset: 31, length: 6 },
        MentionSpan { offset: 40, length: 5 },
    ];
    ingest_message(text, &spans, &mut agg);
    assert_eq!(agg.events(), 3);
    let records = agg.into_records();
    assert_eq!(records.len(), 2);
    let alpha = records
        .iter()
        .find(|u| u.username == LinkType::Username("alpha".to_string()))
        .expect("alpha");
    assert_eq!(alpha.count, 2);
    let beta = records
        .iter()
        .find(|u| u.username == LinkType::Mention("beta".to_string()))
        .expect("beta");
    assert_eq!(beta.count, 1);
}
