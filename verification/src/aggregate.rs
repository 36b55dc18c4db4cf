//! The frequency aggregator.
//!
//! References seen through any extraction path are merged under one
//! normalized identity: the case-folded identifier, regardless of
//! variant.  The store keeps one record per identity, remembering the
//! reference as first seen, a sighting count, and optional metadata that
//! only the resolution phase fills in.

use crate::chars::lower_seq;
use crate::links::{ident_of, LinkType, LinkTypeV};
use vstd::prelude::*;
use vstd::string::*;

verus! {

/// The kind of directory entity a resolved reference points at.
#[derive(Clone, Copy, Debug, PartialEq, Eq, Structural)]
pub enum UsernameType {
    User,
    Group,
    Channel,
}

/// Display metadata attached by a successful directory resolution.
#[derive(Debug, PartialEq, Eq)]
pub struct UsernameMetadata {
    /// The entity's display name.
    pub name: String,
    /// The entity's kind.
    pub type_: UsernameType,
}

/// The mathematical value of a [`UsernameMetadata`].
pub struct MetadataV {
    pub name: Seq<char>,
    pub type_: UsernameType,
}

impl View for UsernameMetadata {
    type V = MetadataV;

    open spec fn view(&self) -> MetadataV {
        MetadataV { name: self.name@, type_: self.type_ }
    }
}

impl UsernameMetadata {
    pub fn new(name: String, type_: UsernameType) -> (r: Self)
        ensures
            r@.name == name@,
            r@.type_ == type_,
    {
        UsernameMetadata { name, type_ }
    }
}

/// One aggregate record: a reference, how often it was sighted, and the
/// metadata attached by resolution, if any.
#[derive(Debug, PartialEq, Eq)]
pub struct Username {
    /// The reference, as first seen.
    pub username: LinkType,
    /// Number of extraction events for this identity.
    pub count: usize,
    /// Display metadata, present only after a successful resolution.
    pub metadata: Option<UsernameMetadata>,
}

/// The mathematical value of a [`Username`] record.
pub struct UsernameV {
    pub reference: LinkTypeV,
    pub count: int,
    pub metadata: Option<MetadataV>,
}

impl View for Username {
    type V = UsernameV;

    open spec fn view(&self) -> UsernameV {
        UsernameV {
            reference: self.username@,
            count: self.count as int,
            metadata: match self.metadata {
                Some(ref m) => Some(m@),
                None => None,
            },
        }
    }
}

impl Username {
    /// A fresh record for a reference on its first sighting.
    pub fn new(username: LinkType) -> (r: Self)
        ensures
            r@.reference == username@,
            r@.count == 1,
            r@.metadata is None,
    {
        Username { username, count: 1, metadata: None }
    }

    /// Attach resolution metadata.  The reference and the count are
    /// left untouched: resolution never mutates a count.
    pub fn set_metadata(&mut self, m: UsernameMetadata)
        ensures
            final(self)@.reference == old(self)@.reference,
            final(self)@.count == old(self)@.count,
            final(self)@.metadata == Some(m@),
    {
        self.metadata = Some(m);
    }
}

/// The normalized identity a reference is aggregated under: its
/// case-folded identifier, with the variant tag ignored.
pub open spec fn key_of(r: LinkTypeV) -> Seq<char> {
    lower_seq(ident_of(r))
}

/// One record per identity: no two records share a key.
pub open spec fn distinct_keys(s: Seq<UsernameV>) -> bool {
    forall|i: int, j: int|
        0 <= i < j < s.len() ==> key_of(#[trigger] s[i].reference) != key_of(
            #[trigger] s[j].reference,
        )
}

/// The index of the first record held under key `k`, or `-1`.
pub open spec fn find_key(s: Seq<UsernameV>, k: Seq<char>) -> int
    decreases s.len(),
{
    if s.len() == 0 {
        -1
    } else if key_of(s[0].reference) == k {
        0
    } else {
        let r = find_key(s.drop_first(), k);
        if r == -1 {
            -1
        } else {
            r + 1
        }
    }
}

pub proof fn lemma_find_key(s: Seq<UsernameV>, k: Seq<char>)
    ensures
        (find_key(s, k) == -1) <==> (forall|j: int|
            0 <= j < s.len() ==> key_of(s[j].reference) != k),
        find_key(s, k) != -1 ==> 0 <= find_key(s, k) < s.len() && key_of(
            s[find_key(s, k)].reference,
        ) == k && (forall|j: int| 0 <= j < find_key(s, k) ==> key_of(s[j].reference) != k),
    decreases s.len(),
{
    if s.len() == 0 {
    } else if key_of(s[0].reference) == k {
    } else {
        let d = s.drop_first();
        lemma_find_key(d, k);
        let r = find_key(d, k);
        if r == -1 {
            assert(find_key(s, k) == -1);
            assert forall|j: int| 0 <= j < s.len() implies key_of(s[j].reference) != k by {
                if j >= 1 {
                    assert(s[j] == d[j - 1]);
                    assert(key_of(d[j - 1].reference) != k);
                }
            }
        } else {
            assert(find_key(s, k) == r + 1);
            assert(s[r + 1] == d[r]);
            assert(key_of(s[r + 1].reference) == k);
            assert forall|j: int| 0 <= j < r + 1 implies key_of(s[j].reference) != k by {
                if j >= 1 {
                    assert(s[j] == d[j - 1]);
                    assert(key_of(d[j - 1].reference) != k);
                }
            }
        }
    }
}

/// The store after one extraction event: a fresh record under a new
/// key, or the held record's count incremented by one.
pub open spec fn spec_record(s: Seq<UsernameV>, r: LinkTypeV) -> Seq<UsernameV> {
    let i = find_key(s, key_of(r));
    if i == -1 {
        s.push(UsernameV { reference: r, count: 1, metadata: None })
    } else {
        s.update(
            i,
            UsernameV { reference: s[i].reference, count: s[i].count + 1, metadata: s[i].metadata },
        )
    }
}

/// The store after a sequence of extraction events, applied in order.
pub open spec fn spec_record_all(s: Seq<UsernameV>, evs: Seq<LinkTypeV>) -> Seq<UsernameV>
    decreases evs.len(),
{
    if evs.len() == 0 {
        s
    } else {
        spec_record_all(spec_record(s, evs[0]), evs.drop_first())
    }
}

pub proof fn lemma_spec_record_all_push(s: Seq<UsernameV>, evs: Seq<LinkTypeV>, e: LinkTypeV)
    ensures
        spec_record_all(s, evs.push(e)) == spec_record(spec_record_all(s, evs), e),
    decreases evs.len(),
{
    if evs.len() == 0 {
        assert(evs.push(e)[0] == e);
        assert(evs.push(e).drop_first() =~= Seq::<LinkTypeV>::empty());
        assert(spec_record_all(s, evs.push(e)) == spec_record_all(
            spec_record(s, e),
            Seq::<LinkTypeV>::empty(),
        ));
    } else {
        assert(evs.push(e)[0] == evs[0]);
        assert(evs.push(e).drop_first() =~= evs.drop_first().push(e));
        lemma_spec_record_all_push(spec_record(s, evs[0]), evs.drop_first(), e);
    }
}

/// The count held for key `k`, zero when no record is held.
pub open spec fn count_of(s: Seq<UsernameV>, k: Seq<char>) -> int {
    if find_key(s, k) == -1 {
        0
    } else {
        s[find_key(s, k)].count
    }
}

/// How many events of `evs` target the identity `k`.
pub open spec fn count_matching(evs: Seq<LinkTypeV>, k: Seq<char>) -> int
    decreases evs.len(),
{
    if evs.len() == 0 {
        0
    } else {
        (if key_of(evs[0]) == k {
            1int
        } else {
            0int
        }) + count_matching(evs.drop_first(), k)
    }
}

proof fn lemma_find_key_push(s: Seq<UsernameV>, x: UsernameV, k: Seq<char>)
    ensures
        find_key(s.push(x), k) == if find_key(s, k) != -1 {
            find_key(s, k)
        } else if key_of(x.reference) == k {
            s.len() as int
        } else {
            -1
        },
    decreases s.len(),
{
    if s.len() == 0 {
        assert(s.push(x)[0] == x);
        assert(s =~= Seq::<UsernameV>::empty());
        assert(s.push(x).drop_first() =~= Seq::<UsernameV>::empty());
        assert(find_key(s, k) == -1);
        assert(find_key(s.push(x), k) == (if key_of(x.reference) == k {
            0int
        } else {
            -1int
        }));
    } else {
        assert(s.push(x)[0] == s[0]);
        let d = s.drop_first();
        assert(s.push(x).drop_first() =~= d.push(x));
        assert(s.push(x).drop_first() == d.push(x));
        lemma_find_key_push(d, x, k);
        lemma_find_key(d, k);
        let r = find_key(d, k);
        let rp = find_key(d.push(x), k);
        if key_of(s[0].reference) == k {
            assert(find_key(s, k) == 0);
            assert(find_key(s.push(x), k) == 0);
        } else {
            assert(find_key(s, k) == (if r == -1 {
                -1int
            } else {
                r + 1
            }));
            assert(find_key(s.push(x), k) == (if rp == -1 {
                -1int
            } else {
                rp + 1
            }));
            if r != -1 {
                assert(rp == r);
                assert(find_key(s.push(x), k) == find_key(s, k));
            } else if key_of(x.reference) == k {
                assert(rp == d.len());
                assert(find_key(s, k) == -1);
                assert(find_key(s.push(x), k) == s.len() as int);
            } else {
                assert(rp == -1);
                assert(find_key(s, k) == -1);
                assert(find_key(s.push(x), k) == -1);
            }
        }
    }
}

proof fn lemma_find_key_same_keys(s1: Seq<UsernameV>, s2: Seq<UsernameV>, k: Seq<char>)
    requires
        s1.len() == s2.len(),
        forall|i: int|
            0 <= i < s1.len() ==> key_of(s1[i].reference) == key_of(#[trigger] s2[i].reference),
    ensures
        find_key(s1, k) == find_key(s2, k),
    decreases s1.len(),
{
    if s1.len() > 0 {
        assert(forall|i: int|
            0 <= i < s1.drop_first().len() ==> s1.drop_first()[i] == s1[i + 1]);
        assert(forall|i: int|
            0 <= i < s2.drop_first().len() ==> s2.drop_first()[i] == s2[i + 1]);
        lemma_find_key_same_keys(s1.drop_first(), s2.drop_first(), k);
    }
}

/// One event moves exactly the count of its own identity, by one.
pub proof fn lemma_record_count(s: Seq<UsernameV>, r: LinkTypeV, k: Seq<char>)
    ensures
        count_of(spec_record(s, r), k) == count_of(s, k) + (if key_of(r) == k {
            1int
        } else {
            0int
        }),
{
    let i = find_key(s, key_of(r));
    lemma_find_key(s, key_of(r));
    lemma_find_key(s, k);
    if i == -1 {
        let x = UsernameV { reference: r, count: 1, metadata: None };
        lemma_find_key_push(s, x, k);
    } else {
        let x = UsernameV {
            reference: s[i].reference,
            count: s[i].count + 1,
            metadata: s[i].metadata,
        };
        let u = s.update(i, x);
        lemma_find_key_same_keys(s, u, k);
        lemma_find_key(u, k);
    }
}

/// Law: for any sequence of extraction events, the count finally held
/// for a normalized identity grows by exactly the number of events that
/// target it, however events for other identities interleave.
pub proof fn lemma_record_all_counts(s: Seq<UsernameV>, evs: Seq<LinkTypeV>, k: Seq<char>)
    ensures
        count_of(spec_record_all(s, evs), k) == count_of(s, k) + count_matching(evs, k),
    decreases evs.len(),
{
    if evs.len() > 0 {
        lemma_record_count(s, evs[0], k);
        lemma_record_all_counts(spec_record(s, evs[0]), evs.drop_first(), k);
    }
}

/// The case-folded identity key of a reference.
pub fn ref_key(l: &LinkType) -> (k: String)
    ensures
        k@ == key_of(l@),
{
    match l {
        LinkType::Username(s) => crate::chars::lower_str(s.as_str()),
        LinkType::Hash(s) => crate::chars::lower_str(s.as_str()),
        LinkType::Mention(s) => crate::chars::lower_str(s.as_str()),
    }
}

/// The keyed store of aggregate records, scoped to one crawl.
pub struct Aggregator {
    records: Vec<Username>,
    events: usize,
}

impl View for Aggregator {
    type V = Seq<UsernameV>;

    closed spec fn view(&self) -> Seq<UsernameV> {
        self.records@.map_values(|u: Username| u@)
    }
}

impl Aggregator {
    /// How many extraction events have been recorded.
    pub closed spec fn spec_events(self) -> int {
        self.events as int
    }

    /// Well-formedness: one record per identity, and every count is at
    /// least one and no larger than the number of events seen.
    pub open spec fn inv(self) -> bool {
        &&& distinct_keys(self@)
        &&& forall|i: int| 0 <= i < self@.len() ==> 1 <= (#[trigger] self@[i]).count
        &&& forall|i: int| 0 <= i < self@.len() ==> (#[trigger] self@[i]).count <= self.spec_events()
    }

    /// An empty store.
    pub fn new() -> (r: Self)
        ensures
            r@ == Seq::<UsernameV>::empty(),
            r.spec_events() == 0,
            r.inv(),
    {
        let r = Aggregator { records: Vec::new(), events: 0 };
        proof {
            assert(r@ =~= Seq::<UsernameV>::empty());
        }
        r
    }

    /// How many extraction events have been recorded.
    pub fn events(&self) -> (n: usize)
        ensures
            n == self.spec_events(),
    {
        self.events
    }

    /// How many distinct identities are held.
    pub fn len(&self) -> (n: usize)
        ensures
            n == self@.len(),
    {
        self.records.len()
    }

    /// Record one extraction event: upsert under the normalized
    /// identity, incrementing the held count or starting a fresh record
    /// at one.
    pub fn record(&mut self, reference: LinkType)
        requires
            old(self).inv(),
            old(self).spec_events() < usize::MAX,
        ensures
            final(self).inv(),
            final(self)@ == spec_record(old(self)@, reference@),
            final(self).spec_events() == old(self).spec_events() + 1,
    {
        let ghost v0 = self@;
        let key = ref_key(&reference);
        let n = self.records.len();
        let mut i: usize = 0;
        while i < n
            invariant
                i <= n,
                n == v0.len(),
                old(self).inv(),
                old(self).spec_events() < usize::MAX,
                self == old(self),
                v0 == self@,
                key@ == key_of(reference@),
                forall|j: int| 0 <= j < i ==> key_of(v0[j].reference) != key@,
            decreases n - i,
        {
            let ki = ref_key(&self.records[i].username);
            proof {
                assert(v0[i as int].reference == self.records@[i as int].username@);
            }
            if ki == key {
                proof {
                    lemma_find_key(v0, key@);
                    assert(find_key(v0, key@) == i as int);
                }
                let u = self.records.remove(i);
                proof {
                    assert(u@ == v0[i as int]);
                    assert(1 <= v0[i as int].count <= old(self).spec_events());
                }
                let u2 = Username {
                    username: u.username,
                    count: u.count + 1,
                    metadata: u.metadata,
                };
                self.records.insert(i, u2);
                self.events = self.events + 1;
                proof {
                    let x = UsernameV {
                        reference: v0[i as int].reference,
                        count: v0[i as int].count + 1,
                        metadata: v0[i as int].metadata,
                    };
                    assert(u2@ == x);
                    assert(self@ =~= v0.update(i as int, x));
                    assert(self@ == spec_record(v0, reference@));
                    assert(self.spec_events() == old(self).spec_events() + 1);
                    assert forall|a: int, b: int|
                        0 <= a < b < self@.len() implies key_of(
                        #[trigger] self@[a].reference,
                    ) != key_of(#[trigger] self@[b].reference) by {
                        assert(key_of(self@[a].reference) == key_of(v0[a].reference));
                        assert(key_of(self@[b].reference) == key_of(v0[b].reference));
                    }
                    assert forall|a: int|
                        0 <= a < self@.len() implies 1 <= (#[trigger] self@[a]).count
                        && self@[a].count <= self.spec_events() by {
                        assert(1 <= v0[a].count <= old(self).spec_events());
                        if a != i as int {
                            assert(self@[a] == v0[a]);
                        }
                    }
                }
                return;
            }
            i = i + 1;
        }
        proof {
            lemma_find_key(v0, key@);
            assert(find_key(v0, key@) == -1);
        }
        let fresh = Username::new(reference);
        self.records.push(fresh);
        self.events = self.events + 1;
        proof {
            assert(self@ =~= v0.push(fresh@));
            assert(fresh@ == UsernameV { reference: reference@, count: 1, metadata: None });
            assert(self@ == spec_record(v0, reference@));
            assert(self.spec_events() == old(self).spec_events() + 1);
            assert forall|a: int, b: int|
                0 <= a < b < self@.len() implies key_of(#[trigger] self@[a].reference) != key_of(
                #[trigger] self@[b].reference,
            ) by {
                if b < v0.len() {
                    assert(self@[a] == v0[a]);
                    assert(self@[b] == v0[b]);
                } else {
                    assert(self@[a] == v0[a]);
                    assert(key_of(v0[a].reference) != key@);
                }
            }
            assert forall|a: int|
                0 <= a < self@.len() implies 1 <= (#[trigger] self@[a]).count && self@[a].count
                <= self.spec_events() by {
                if a < v0.len() {
                    assert(self@[a] == v0[a]);
                    assert(1 <= v0[a].count <= old(self).spec_events());
                }
            }
        }
    }

    /// Hand out the aggregate records, consuming the store.  The order
    /// is the store's insertion order; callers sort.
    pub fn into_records(self) -> (out: Vec<Username>)
        ensures
            out@.map_values(|u: Username| u@) == self@,
    {
        self.records
    }
}

} // verus!
