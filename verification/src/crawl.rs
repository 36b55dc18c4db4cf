//! Per-message extraction, the computing half of the crawl driver.
//!
//! The crawl walks a conversation's message history to exhaustion; the
//! surrounding loop obtains each message from the external provider and
//! hands its plain text and mention annotations here.  Every message
//! contributes at most one link-derived reference and one reference per
//! mention annotation, all recorded as separate extraction events.

use crate::aggregate::{spec_record, spec_record_all, Aggregator, UsernameV};
use crate::links::{extract, spec_extract, LinkTypeV};
use crate::mentions::{classify_mention, mention_ident, MentionSpan};
use crate::utf16::utf16_seq;
use vstd::prelude::*;

verus! {

/// The mention-derived references of a message, one per annotation, in
/// annotation order.
pub open spec fn mention_refs(t: Seq<char>, spans: Seq<MentionSpan>) -> Seq<LinkTypeV> {
    spans.map_values(
        |sp: MentionSpan| LinkTypeV::Mention(mention_ident(t, sp.offset as int, sp.length as int)),
    )
}

/// Every reference a message contributes: the link-derived one, if any,
/// then the mention-derived ones.
pub open spec fn message_refs(t: Seq<char>, spans: Seq<MentionSpan>) -> Seq<LinkTypeV> {
    match spec_extract(t) {
        Some(r) => seq![r] + mention_refs(t, spans),
        None => mention_refs(t, spans),
    }
}

/// Every annotation's window lies inside the encoded text.
pub open spec fn spans_in_bounds(t: Seq<char>, spans: Seq<MentionSpan>) -> bool {
    forall|j: int|
        0 <= j < spans.len() ==> (#[trigger] spans[j]).offset + spans[j].length <= utf16_seq(
            t,
        ).len()
}

/// The store after the at-most-one link-derived extraction event of a
/// message text.
pub open spec fn after_link(s0: Seq<UsernameV>, t: Seq<char>) -> Seq<UsernameV> {
    match spec_extract(t) {
        Some(r) => spec_record(s0, r),
        None => s0,
    }
}

/// How many link-derived extraction events a message text yields: one
/// or none.
pub open spec fn link_events(t: Seq<char>) -> int {
    match spec_extract(t) {
        Some(r) => 1,
        None => 0,
    }
}

/// Record the at-most-one link reference classified from a message
/// text.
pub fn extract_link(text: &str, usernames: &mut Aggregator)
    requires
        old(usernames).inv(),
        old(usernames).spec_events() < usize::MAX,
    ensures
        final(usernames).inv(),
        final(usernames)@ == after_link(old(usernames)@, text@),
        final(usernames).spec_events() == old(usernames).spec_events() + link_events(text@),
{
    if let Some(username) = extract(text) {
        usernames.record(username);
    }
}

/// Record one reference per mention annotation of a message.
pub fn extract_mentions(text: &str, spans: &Vec<MentionSpan>, usernames: &mut Aggregator)
    requires
        old(usernames).inv(),
        old(usernames).spec_events() + spans@.len() <= usize::MAX,
        spans_in_bounds(text@, spans@),
    ensures
        final(usernames).inv(),
        final(usernames)@ == spec_record_all(old(usernames)@, mention_refs(text@, spans@)),
        final(usernames).spec_events() == old(usernames).spec_events() + spans@.len(),
{
    let ghost evs = mention_refs(text@, spans@);
    let n = spans.len();
    proof {
        assert(evs.len() == n);
        assert(spec_record_all(old(usernames)@, evs.take(0)) == old(usernames)@) by {
            assert(evs.take(0) =~= Seq::<LinkTypeV>::empty());
        }
    }
    let mut j: usize = 0;
    while j < n
        invariant
            n == spans@.len(),
            j <= n,
            evs == mention_refs(text@, spans@),
            evs.len() == n,
            spans_in_bounds(text@, spans@),
            old(usernames).spec_events() + n <= usize::MAX,
            usernames.inv(),
            usernames@ == spec_record_all(old(usernames)@, evs.take(j as int)),
            usernames.spec_events() == old(usernames).spec_events() + j,
        decreases n - j,
    {
        let sp = spans[j];
        proof {
            assert(spans@[j as int] == sp);
            assert(sp.offset + sp.length <= utf16_seq(text@).len());
        }
        let m = classify_mention(text, sp);
        usernames.record(m);
        proof {
            assert(m@ == evs[j as int]);
            assert(evs.take(j + 1 as int) =~= evs.take(j as int).push(evs[j as int]));
            crate::aggregate::lemma_spec_record_all_push(
                old(usernames)@,
                evs.take(j as int),
                evs[j as int],
            );
        }
        j = j + 1;
    }
    proof {
        assert(evs.take(n as int) =~= evs);
    }
}

/// Record everything one message contributes: its link reference, if
/// any, then each mention reference.
pub fn ingest_message(text: &str, spans: &Vec<MentionSpan>, usernames: &mut Aggregator)
    requires
        old(usernames).inv(),
        old(usernames).spec_events() + 1 + spans@.len() <= usize::MAX,
        spans_in_bounds(text@, spans@),
    ensures
        final(usernames).inv(),
        final(usernames)@ == spec_record_all(old(usernames)@, message_refs(text@, spans@)),
        final(usernames).spec_events() == old(usernames).spec_events() + message_refs(
            text@,
            spans@,
        ).len(),
{
    let ghost evs = message_refs(text@, spans@);
    extract_link(text, usernames);
    extract_mentions(text, spans, usernames);
    proof {
        match spec_extract(text@) {
            Some(r) => {
                let rest = mention_refs(text@, spans@);
                assert(evs == seq![r] + rest);
                assert(evs[0] == r);
                assert(evs.drop_first() =~= rest);
                assert(evs.len() > 0);
                assert(spec_record_all(old(usernames)@, evs) == spec_record_all(
                    spec_record(old(usernames)@, r),
                    rest,
                ));
            },
            None => {
                assert(evs == mention_refs(text@, spans@));
            },
        }
    }
}

} // verus!
