use username_crawler::aggregate::{Aggregator, Username, UsernameMetadata, UsernameType};
use username_crawler::crawl::extract_link;
use username_crawler::links::LinkType;
use username_crawler::resolve::{apply_resolution, assemble, resolution_key, sort_records};

fn meta(name: &str, type_: UsernameType) -> UsernameMetadata {
    UsernameMetadata::new(name.to_string(), type_)
}

#[test]
fn invite_hashes_are_never_submitted() {
    let u = Username::new(LinkType::Hash("abc123".to_string()));
    assert_eq!(resolution_key(&u), None);
}

#[test]
fn public_names_and_mentions_are_submitted_verbatim() {
    let u = Username::new(LinkType::Username("Alpha".to_string()));
    assert_eq!(resolution_key(&u), Some("Alpha".to_string()));
    let m = Username::new(LinkType::Mention("bob".to_string()));
    assert_eq!(resolution_key(&m), Some("bob".to_string()));
}

#[test]
fn apply_resolution_sets_only_metadata() {
    let mut records = vec![
        Username::new(LinkType::Username("alpha".to_string())),
        Username::new(LinkType::Username("beta".to_string())),
    ];
    records[0].count = 4;
    apply_resolution(&mut records, 0, Some(meta("Alpha", UsernameType::Group)));
    assert_eq!(records[0].count, 4);
    assert_eq!(records[0].username, LinkType::Username("alpha".to_string()));
    assert_eq!(
        records[0].metadata.as_ref().map(|m| m.name.clone()),
        Some("Alpha".to_string())
    );
    // the neighbour is untouched
    assert!(records[1].metadata.is_none());
    assert_eq!(records[1].count, 1);
}

#[test]
fn apply_resolution_miss_changes_nothing() {
    let mut records = vec![Username::new(LinkType::Username("alpha".to_string()))];
    apply_resolution(&mut records, 0, None);
    assert!(records[0].metadata.is_none());
    assert_eq!(records[0].count, 1);
}

#[test]
fn unresolved_records_are_dropped() {
    // a resolvable record whose lookup missed is present before the
    // filter and absent from the final list
    let mut agg = Aggregator::new();
    extract_link("https://t.me/alpha", &mut agg);
    let records = agg.into_records();
    assert_eq!(records.len(), 1);
    assert!(records[0].count > 0);
    let out = assemble(records);
    assert!(out.is_empty());
}

#[test]
fn invite_hash_never_reaches_the_output() {
    // unresolved
    let mut agg = Aggregator::new();
    extract_link("https://t.me/+abc123", &mut agg);
    let records = agg.into_records();
    assert_eq!(records[0].username, LinkType::Hash("abc123".to_string()));
    assert!(assemble(records).is_empty());
    // even a hash record that somehow carries metadata stays out
    let mut u = Username::new(LinkType::Hash("abc123".to_string()));
    u.set_metadata(meta("Sneaky", UsernameType::Group));
    assert!(assemble(vec![u]).is_empty());
}

#[test]
fn output_is_sorted_by_count_then_key() {
    let mk = |name: &str, count: usize| {
        let mut u = Username::new(LinkType::Username(name.to_string()));
        u.count = count;
        u.set_metadata(meta(name, UsernameType::User));
        u
    };
    let out = assemble(vec![mk("bravo", 2), mk("alpha", 2), mk("zulu", 5), mk("mike", 1)]);
    let names: Vec<String> = out.iter().map(|u| u.username.to_string()).collect();
    assert_eq!(names, vec!["zulu", "alpha", "bravo", "mike"]);
    let counts: Vec<usize> = out.iter().map(|u| u.count).collect();
    assert_eq!(counts, vec![5, 2, 2, 1]);
}

#[test]
fn sort_is_deterministic_for_equal_counts() {
    let mk = |name: &str| {
        let mut u = Username::new(LinkType::Username(name.to_string()));
        u.set_metadata(meta(name, UsernameType::User));
        u
    };
    // same records in two insertion orders give the same ranking
    let a = sort_records(vec![mk("b"), mk("a"), mk("c")]);
    let b = sort_records(vec![mk("c"), mk("b"), mk("a")]);
    let names =
        |v: &Vec<Username>| v.iter().map(|u| u.username.to_string()).collect::<Vec<_>>();
    assert_eq!(names(&a), names(&b));
    assert_eq!(names(&a), vec!["a", "b", "c"]);
}

#[test]
fn end_to_end_crawl_resolve_assemble() {
    let mut agg = Aggregator::new();
    for _ in 0..3 {
        extract_link("https://t.me/busy", &mut agg);
    }
    extract_link("https://t.me/quiet", &mut agg);
    extract_link("https://t.me/+secret", &mut agg);
    extract_link("https://t.me/missing", &mut agg);
    let mut records = sort_records(agg.into_records());
    // resolve in ranked order, like the pipeline does: the directory
    // knows `busy` and `quiet`, misses `missing`, never sees `secret`
    for i in 0..records.len() {
        let outcome = match resolution_key(&records[i]) {
            Some(name) if name == "busy" => Some(meta("Busy Chat", UsernameType::Channel)),
            Some(name) if name == "quiet" => Some(meta("Quiet User", UsernameType::User)),
            _ => None,
        };
        apply_resolution(&mut records, i, outcome);
    }
    let out = assemble(records);
    assert_eq!(out.len(), 2);
    assert_eq!(out[0].username, LinkType::Username("busy".to_string()));
    assert_eq!(out[0].count, 3);
    assert_eq!(out[0].metadata.as_ref().unwrap().name, "Busy Chat");
    assert_eq!(out[0].metadata.as_ref().unwrap().type_, UsernameType::Channel);
    assert_eq!(out[1].username, LinkType::Username("quiet".to_string()));
    assert_eq!(out[1].count, 1);
}
