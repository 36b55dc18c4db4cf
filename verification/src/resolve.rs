//! The resolution pipeline and the result assembler.
//!
//! After the crawl, records are ranked by descending count (ties broken
//! by ascending identity key, a deterministic rule), each resolvable
//! record is submitted to the external directory one at a time, and a
//! lookup outcome is applied to exactly one record without ever touching
//! a count.  Invite-hash records are never submitted.  The assembler
//! then drops every record without metadata — invite hashes among them,
//! unconditionally — and hands back the ranked remainder.

use crate::aggregate::{distinct_keys, key_of, ref_key, Username, UsernameMetadata, UsernameV};
use crate::links::{ident_of, LinkType, LinkTypeV};
use vstd::prelude::*;
use vstd::relations::sorted_by;
use vstd::string::*;

verus! {

broadcast use {vstd::seq_lib::group_to_multiset_ensures, vstd::multiset::group_multiset_axioms};

/// Lexicographic order on character sequences, by scalar value.
pub open spec fn lex_le(a: Seq<char>, b: Seq<char>) -> bool
    decreases a.len(),
{
    if a.len() == 0 {
        true
    } else if b.len() == 0 {
        false
    } else if a[0] == b[0] {
        lex_le(a.drop_first(), b.drop_first())
    } else {
        (a[0] as u32) < (b[0] as u32)
    }
}

proof fn lemma_char_value_distinct(c: char, d: char)
    requires
        c != d,
    ensures
        (c as u32) != (d as u32),
{
}

pub proof fn lemma_lex_le_total(a: Seq<char>, b: Seq<char>)
    ensures
        lex_le(a, b) || lex_le(b, a),
    decreases a.len(),
{
    if a.len() == 0 {
        assert(lex_le(a, b));
    } else if b.len() == 0 {
        assert(lex_le(b, a));
    } else if a[0] == b[0] {
        lemma_lex_le_total(a.drop_first(), b.drop_first());
        assert(lex_le(a, b) == lex_le(a.drop_first(), b.drop_first()));
        assert(lex_le(b, a) == lex_le(b.drop_first(), a.drop_first()));
    } else {
        lemma_char_value_distinct(a[0], b[0]);
    }
}

pub proof fn lemma_lex_le_trans(a: Seq<char>, b: Seq<char>, c: Seq<char>)
    requires
        lex_le(a, b),
        lex_le(b, c),
    ensures
        lex_le(a, c),
    decreases a.len(),
{
    if a.len() > 0 && b.len() > 0 && c.len() > 0 && a[0] == b[0] && b[0] == c[0] {
        lemma_lex_le_trans(a.drop_first(), b.drop_first(), c.drop_first());
    }
}

pub proof fn lemma_lex_le_refl(a: Seq<char>)
    ensures
        lex_le(a, a),
    decreases a.len(),
{
    if a.len() > 0 {
        lemma_lex_le_refl(a.drop_first());
    }
}

pub proof fn lemma_lex_le_antisym(a: Seq<char>, b: Seq<char>)
    requires
        lex_le(a, b),
        lex_le(b, a),
    ensures
        a == b,
    decreases a.len(),
{
    if a.len() == 0 {
        assert(b.len() == 0);
        assert(a =~= b);
    } else {
        assert(b.len() > 0);
        if a[0] != b[0] {
            lemma_char_value_distinct(a[0], b[0]);
            assert(false);
        }
        assert(a[0] == b[0]);
        lemma_lex_le_antisym(a.drop_first(), b.drop_first());
        assert(a.len() == b.len());
        assert forall|k: int| 0 <= k < a.len() implies a[k] == b[k] by {
            if k > 0 {
                assert(a[k] == a.drop_first()[k - 1]);
                assert(b[k] == b.drop_first()[k - 1]);
            }
        }
        assert(a =~= b);
    }
}

/// The ranking order of the final output: count descending, ties broken
/// by the identity key ascending.
pub open spec fn record_le(a: UsernameV, b: UsernameV) -> bool {
    a.count > b.count || (a.count == b.count && lex_le(
        key_of(a.reference),
        key_of(b.reference),
    ))
}

/// The ranking order as a relation value, for use with `sorted_by`.
pub open spec fn rank_leq() -> spec_fn(UsernameV, UsernameV) -> bool {
    |a: UsernameV, b: UsernameV| record_le(a, b)
}

pub proof fn lemma_record_le_total(a: UsernameV, b: UsernameV)
    ensures
        record_le(a, b) || record_le(b, a),
{
    if a.count == b.count {
        lemma_lex_le_total(key_of(a.reference), key_of(b.reference));
    }
}

pub proof fn lemma_record_le_trans(a: UsernameV, b: UsernameV, c: UsernameV)
    requires
        record_le(a, b),
        record_le(b, c),
    ensures
        record_le(a, c),
{
    if a.count == b.count && b.count == c.count {
        lemma_lex_le_trans(key_of(a.reference), key_of(b.reference), key_of(c.reference));
    }
}

/// The mathematical values of a record vector.
pub open spec fn views_of(s: Seq<Username>) -> Seq<UsernameV> {
    s.map_values(|u: Username| u@)
}

/// A record that survives the final filter: resolved, and not an
/// invite hash.
pub open spec fn keep(u: UsernameV) -> bool {
    u.metadata is Some && !(u.reference is Hash)
}

/// The records surviving the final filter, in their given order.
pub open spec fn keep_only(s: Seq<UsernameV>) -> Seq<UsernameV>
    decreases s.len(),
{
    if s.len() == 0 {
        Seq::empty()
    } else if keep(s[0]) {
        seq![s[0]] + keep_only(s.drop_first())
    } else {
        keep_only(s.drop_first())
    }
}

/// The identifier to submit for a directory lookup, or nothing for an
/// invite hash, which is never submitted.
pub fn resolution_key(u: &Username) -> (r: Option<String>)
    ensures
        (match r {
            Some(s) => !(u@.reference is Hash) && s@ == ident_of(u@.reference),
            None => u@.reference is Hash,
        }),
{
    match &u.username {
        LinkType::Username(s) => Some(s.clone()),
        LinkType::Mention(s) => Some(s.clone()),
        LinkType::Hash(_) => None,
    }
}

/// Apply one lookup outcome to the record at `i`: a found entity's
/// metadata is attached, a miss leaves the record as it was.  No other
/// record is touched, and never a reference or a count.
pub fn apply_resolution(records: &mut Vec<Username>, i: usize, outcome: Option<UsernameMetadata>)
    requires
        i < old(records)@.len(),
    ensures
        final(records)@.len() == old(records)@.len(),
        forall|j: int|
            0 <= j < old(records)@.len() && j != i ==> final(records)@[j] == old(records)@[j],
        final(records)@[i as int]@.reference == old(records)@[i as int]@.reference,
        final(records)@[i as int]@.count == old(records)@[i as int]@.count,
        outcome matches Some(m) ==> final(records)@[i as int]@.metadata == Some(m@),
        outcome is None ==> final(records)@[i as int] == old(records)@[i as int],
{
    match outcome {
        Some(m) => {
            let u = records.remove(i);
            let u2 = Username { username: u.username, count: u.count, metadata: Some(m) };
            records.insert(i, u2);
            proof {
                assert(final(records)@ =~= old(records)@.update(i as int, u2));
            }
        },
        None => {},
    }
}

fn record_le_exec(a: &Username, b: &Username) -> (r: bool)
    ensures
        r == record_le(a@, b@),
{
    if a.count > b.count {
        true
    } else if a.count < b.count {
        false
    } else {
        let ka = ref_key(&a.username);
        let kb = ref_key(&b.username);
        lex_le_str(ka.as_str(), kb.as_str())
    }
}

fn lex_le_str(a: &str, b: &str) -> (r: bool)
    ensures
        r == lex_le(a@, b@),
{
    let na = a.unicode_len();
    let nb = b.unicode_len();
    let mut i: usize = 0;
    proof {
        assert(a@.skip(0) =~= a@);
        assert(b@.skip(0) =~= b@);
    }
    while i < na && i < nb
        invariant
            na == a@.len(),
            nb == b@.len(),
            i <= na,
            i <= nb,
            lex_le(a@, b@) == lex_le(a@.skip(i as int), b@.skip(i as int)),
            lex_le(b@, a@) == lex_le(b@.skip(i as int), a@.skip(i as int)),
        decreases na - i,
    {
        let ca = a.get_char(i);
        let cb = b.get_char(i);
        proof {
            assert(a@.skip(i as int)[0] == a@[i as int]);
            assert(b@.skip(i as int)[0] == b@[i as int]);
            assert(a@.skip(i as int).drop_first() =~= a@.skip(i + 1 as int));
            assert(b@.skip(i as int).drop_first() =~= b@.skip(i + 1 as int));
        }
        if ca as u32 == cb as u32 {
            proof {
                assert(ca == cb);
            }
            i = i + 1;
        } else {
            return (ca as u32) < (cb as u32);
        }
    }
    proof {
        if i == na {
            assert(a@.skip(i as int).len() == 0);
        } else {
            assert(b@.skip(i as int).len() == 0);
            assert(a@.skip(i as int).len() > 0);
        }
    }
    na <= nb
}

/// Stable deterministic ranking: count descending, ties by ascending
/// identity key.  The result holds exactly the given records.
pub fn sort_records(records: Vec<Username>) -> (out: Vec<Username>)
    ensures
        sorted_by(views_of(out@), rank_leq()),
        views_of(out@).to_multiset() == views_of(records@).to_multiset(),
{
    let ghost leq = rank_leq();
    let ghost all = views_of(records@);
    let mut v = records;
    let mut out: Vec<Username> = Vec::new();
    proof {
        assert(views_of(out@) =~= Seq::<UsernameV>::empty());
        assert(views_of(out@).to_multiset().add(views_of(v@).to_multiset()) =~= all.to_multiset());
    }
    while v.len() > 0
        invariant
            sorted_by(views_of(out@), leq),
            leq == rank_leq(),
            all == views_of(records@),
            views_of(out@).to_multiset().add(views_of(v@).to_multiset()) == all.to_multiset(),
        decreases v@.len(),
    {
        let ghost vv = views_of(v@);
        let ghost ov = views_of(out@);
        let u = v.pop().unwrap();
        proof {
            assert(u@ == vv[vv.len() - 1]);
            assert(views_of(v@) =~= vv.subrange(0, vv.len() - 1));
            assert(vv.subrange(0, vv.len() - 1) =~= vv.remove(vv.len() - 1));
            assert(vv.remove(vv.len() - 1).to_multiset() =~= vv.to_multiset().remove(u@));
            assert(vv.to_multiset().count(u@) > 0);
            assert(views_of(v@).to_multiset().insert(u@) =~= vv.to_multiset());
        }
        let n_out = out.len();
        let mut p: usize = 0;
        while p < n_out && record_le_exec(&out[p], &u)
            invariant
                p <= n_out,
                n_out == out@.len(),
                ov == views_of(out@),
                forall|q: int| 0 <= q < p ==> record_le(ov[q], u@),
            decreases n_out - p,
        {
            proof {
                assert(out@[p as int]@ == ov[p as int]);
            }
            p = p + 1;
        }
        proof {
            assert(p < n_out ==> out@[p as int]@ == ov[p as int]);
        }
        out.insert(p, u);
        proof {
            let ov2 = views_of(out@);
            assert(ov2 =~= ov.insert(p as int, u@));
            // sortedness of the grown prefix
            if p < ov.len() {
                assert(!record_le(ov[p as int], u@));
                lemma_record_le_total(ov[p as int], u@);
                assert(record_le(u@, ov[p as int]));
            }
            assert forall|x: int, y: int| 0 <= x < y < ov2.len() implies leq(ov2[x], ov2[y]) by {
                if y < p {
                    assert(ov2[x] == ov[x]);
                    assert(ov2[y] == ov[y]);
                } else if x < p && y == p {
                    assert(ov2[x] == ov[x]);
                    assert(ov2[y] == u@);
                } else if x < p && y > p {
                    assert(ov2[x] == ov[x]);
                    assert(ov2[y] == ov[y - 1]);
                } else if x == p && y > p {
                    assert(ov2[x] == u@);
                    assert(ov2[y] == ov[y - 1]);
                    assert(record_le(u@, ov[p as int]));
                    if y - 1 > p {
                        assert(leq(ov[p as int], ov[y - 1]));
                        lemma_record_le_trans(u@, ov[p as int], ov[y - 1]);
                    }
                } else {
                    assert(ov2[x] == ov[x - 1]);
                    assert(ov2[y] == ov[y - 1]);
                }
            }
            // the multiset moves one element from v to out
            assert(ov2.remove(p as int) =~= ov);
            assert(ov2.remove(p as int).to_multiset() =~= ov2.to_multiset().remove(ov2[p as int]));
            assert(ov2[p as int] == u@);
            assert(ov2.to_multiset().count(u@) > 0) by {
                assert(ov2.contains(u@));
            }
            assert(ov2.to_multiset() =~= ov.to_multiset().insert(u@));
            assert(ov2.to_multiset().add(views_of(v@).to_multiset()) =~= all.to_multiset());
        }
    }
    proof {
        assert(views_of(v@) =~= Seq::<UsernameV>::empty());
        assert(views_of(out@).to_multiset().add(Seq::<UsernameV>::empty().to_multiset())
            =~= views_of(out@).to_multiset());
    }
    out
}

proof fn lemma_keep_only_all(s: Seq<UsernameV>)
    ensures
        forall|i: int| 0 <= i < keep_only(s).len() ==> keep(#[trigger] keep_only(s)[i]),
    decreases s.len(),
{
    if s.len() == 0 {
        assert(keep_only(s) =~= Seq::<UsernameV>::empty());
    } else {
        lemma_keep_only_all(s.drop_first());
        let d = s.drop_first();
        assert forall|i: int| 0 <= i < keep_only(s).len() implies keep(
            #[trigger] keep_only(s)[i],
        ) by {
            if keep(s[0]) {
                assert(keep_only(s) == seq![s[0]] + keep_only(d));
                if i == 0 {
                    assert(keep_only(s)[0] == s[0]);
                } else {
                    assert(keep_only(s)[i] == keep_only(d)[i - 1]);
                    assert(keep(keep_only(d)[i - 1]));
                }
            } else {
                assert(keep_only(s) == keep_only(d));
                assert(keep(keep_only(d)[i]));
            }
        }
    }
}

/// The final output: every record without metadata is dropped — invite
/// hashes among them, unconditionally, resolved or not — and the
/// remainder is ranked by count descending, ties by ascending identity
/// key.
pub fn assemble(records: Vec<Username>) -> (out: Vec<Username>)
    ensures
        sorted_by(views_of(out@), rank_leq()),
        views_of(out@).to_multiset() == keep_only(views_of(records@)).to_multiset(),
        forall|i: int| 0 <= i < out@.len() ==> keep(#[trigger] views_of(out@)[i]),
{
    let ghost all = views_of(records@);
    let mut v = records;
    let mut kept: Vec<Username> = Vec::new();
    proof {
        assert(views_of(kept@) =~= Seq::<UsernameV>::empty());
        assert(keep_only(all) =~= views_of(kept@) + keep_only(views_of(v@)));
    }
    while v.len() > 0
        invariant
            keep_only(all) == views_of(kept@) + keep_only(views_of(v@)),
        decreases v@.len(),
    {
        let ghost w = views_of(v@);
        let ghost kv = views_of(kept@);
        let u = v.remove(0);
        proof {
            assert(u@ == w[0]);
            assert(views_of(v@) =~= w.drop_first());
        }
        let resolved = u.metadata.is_some();
        let hash = match &u.username {
            LinkType::Hash(_) => true,
            _ => false,
        };
        if resolved && !hash {
            kept.push(u);
            proof {
                assert(keep(w[0]));
                assert(keep_only(w) == seq![w[0]] + keep_only(w.drop_first()));
                assert(views_of(kept@) =~= kv.push(w[0]));
                assert(kv + (seq![w[0]] + keep_only(w.drop_first())) =~= kv.push(w[0])
                    + keep_only(w.drop_first()));
            }
        } else {
            proof {
                assert(!keep(w[0]));
                assert(keep_only(w) == keep_only(w.drop_first()));
            }
        }
    }
    proof {
        assert(views_of(v@) =~= Seq::<UsernameV>::empty());
        assert(keep_only(Seq::<UsernameV>::empty()) =~= Seq::<UsernameV>::empty());
        assert(views_of(kept@) =~= keep_only(all));
        lemma_keep_only_all(all);
    }
    let out = sort_records(kept);
    proof {
        assert forall|i: int| 0 <= i < out@.len() implies keep(#[trigger] views_of(out@)[i]) by {
            let x = views_of(out@)[i];
            assert(views_of(out@).contains(x));
            assert(views_of(out@).to_multiset().count(x) > 0);
            assert(keep_only(all).to_multiset().count(x) > 0);
            assert(keep_only(all).contains(x));
            let j = choose|j: int| 0 <= j < keep_only(all).len() && keep_only(all)[j] == x;
            assert(keep(keep_only(all)[j]));
        }
    }
    out
}

/// Law: the ranked output is unique.  Any two vectors that are sorted
/// by the ranking order and hold the same records — with one record per
/// identity, as the aggregator guarantees — are equal, so the final
/// order is deterministic: it never depends on how sorting or
/// resolution happened to proceed.
pub proof fn lemma_ranked_output_unique(x: Seq<UsernameV>, y: Seq<UsernameV>)
    requires
        sorted_by(x, rank_leq()),
        sorted_by(y, rank_leq()),
        x.to_multiset() == y.to_multiset(),
        distinct_keys(x),
    ensures
        x == y,
    decreases x.len(),
{
    if x.len() == 0 {
        assert(y.to_multiset().len() == 0);
        assert(x =~= y);
    } else {
        assert(x.to_multiset().len() == x.len());
        assert(y.len() == x.len());
        assert(y.contains(y[0]));
        assert(x.to_multiset().count(y[0]) > 0);
        assert(x.contains(y[0]));
        let i = choose|i: int| 0 <= i < x.len() && x[i] == y[0];
        assert(x.contains(x[0]));
        assert(y.to_multiset().count(x[0]) > 0);
        assert(y.contains(x[0]));
        let j = choose|j: int| 0 <= j < y.len() && y[j] == x[0];
        assert(record_le(x[0], y[0])) by {
            if i > 0 {
                assert(rank_leq()(x[0], x[i]));
            } else {
                lemma_lex_le_refl(key_of(x[0].reference));
            }
        }
        assert(record_le(y[0], x[0])) by {
            if j > 0 {
                assert(rank_leq()(y[0], y[j]));
            } else {
                lemma_lex_le_refl(key_of(y[0].reference));
            }
        }
        assert(x[0].count == y[0].count);
        lemma_lex_le_antisym(key_of(x[0].reference), key_of(y[0].reference));
        assert(key_of(x[0].reference) == key_of(y[0].reference));
        if i != 0 {
            assert(key_of(x[0].reference) != key_of(x[i].reference));
            assert(false);
        }
        assert(x[0] == y[0]);
        let xt = x.drop_first();
        let yt = y.drop_first();
        assert(x.remove(0) =~= xt);
        assert(y.remove(0) =~= yt);
        assert(x.remove(0).to_multiset() =~= x.to_multiset().remove(x[0]));
        assert(y.remove(0).to_multiset() =~= y.to_multiset().remove(y[0]));
        assert(xt.to_multiset() == yt.to_multiset());
        assert(sorted_by(xt, rank_leq())) by {
            assert forall|a: int, b: int| 0 <= a <= b < xt.len() implies rank_leq()(
                xt[a],
                xt[b],
            ) by {
                assert(xt[a] == x[a + 1]);
                assert(xt[b] == x[b + 1]);
                if a < b {
                    assert(rank_leq()(x[a + 1], x[b + 1]));
                } else {
                    lemma_lex_le_refl(key_of(x[a + 1].reference));
                }
            }
        }
        assert(sorted_by(yt, rank_leq())) by {
            assert forall|a: int, b: int| 0 <= a <= b < yt.len() implies rank_leq()(
                yt[a],
                yt[b],
            ) by {
                assert(yt[a] == y[a + 1]);
                assert(yt[b] == y[b + 1]);
                if a < b {
                    assert(rank_leq()(y[a + 1], y[b + 1]));
                } else {
                    lemma_lex_le_refl(key_of(y[a + 1].reference));
                }
            }
        }
        assert(distinct_keys(xt)) by {
            assert forall|a: int, b: int| 0 <= a < b < xt.len() implies key_of(
                #[trigger] xt[a].reference,
            ) != key_of(#[trigger] xt[b].reference) by {
                assert(xt[a] == x[a + 1]);
                assert(xt[b] == x[b + 1]);
            }
        }
        lemma_ranked_output_unique(xt, yt);
        assert(x =~= y) by {
            assert(forall|k: int| 1 <= k < x.len() ==> x[k] == xt[k - 1] && y[k] == yt[k - 1]);
        }
    }
}

proof fn lemma_count_at_two_indices(s: Seq<UsernameV>, a: int, b: int)
    requires
        0 <= a < b < s.len(),
        s[a] == s[b],
    ensures
        s.to_multiset().count(s[a]) >= 2,
{
    let v = s[a];
    assert(s.remove(a).to_multiset() =~= s.to_multiset().remove(v));
    assert(s.remove(a) =~= s.subrange(0, a) + s.subrange(a + 1, s.len() as int));
    assert(s.remove(a)[b - 1] == v);
    assert(s.remove(a).contains(v));
    assert(s.remove(a).to_multiset().count(v) > 0);
    assert(s.contains(v));
    assert(s.to_multiset().count(v) > 0);
    assert(s.to_multiset().remove(v).count(v) == s.to_multiset().count(v) - 1);
}

proof fn lemma_two_indices_from_count(s: Seq<UsernameV>, v: UsernameV) -> (r: (int, int))
    requires
        s.to_multiset().count(v) >= 2,
    ensures
        0 <= r.0 < r.1 < s.len(),
        s[r.0] == v,
        s[r.1] == v,
{
    assert(s.contains(v));
    let a = choose|i: int| 0 <= i < s.len() && s[i] == v;
    assert(s.remove(a).to_multiset() =~= s.to_multiset().remove(v));
    assert(s.to_multiset().remove(v).count(v) == s.to_multiset().count(v) - 1);
    assert(s.remove(a).to_multiset().count(v) >= 1);
    assert(s.remove(a).contains(v));
    let c = choose|i: int| 0 <= i < s.remove(a).len() && s.remove(a)[i] == v;
    assert(s.remove(a) =~= s.subrange(0, a) + s.subrange(a + 1, s.len() as int));
    if c < a {
        assert(s[c] == v);
        (c, a)
    } else {
        assert(s[c + 1] == v);
        (a, c + 1)
    }
}

/// A vector holding the same records as one with distinct keys has
/// distinct keys itself.
proof fn lemma_distinct_keys_transfer(x: Seq<UsernameV>, y: Seq<UsernameV>)
    requires
        x.to_multiset() == y.to_multiset(),
        distinct_keys(x),
    ensures
        distinct_keys(y),
{
    assert forall|i: int, j: int|
        0 <= i < j < y.len() implies key_of(#[trigger] y[i].reference) != key_of(
        #[trigger] y[j].reference,
    ) by {
        if key_of(y[i].reference) == key_of(y[j].reference) {
            if y[i] == y[j] {
                lemma_count_at_two_indices(y, i, j);
                let r = lemma_two_indices_from_count(x, y[i]);
                assert(key_of(x[r.0].reference) != key_of(x[r.1].reference));
                assert(false);
            } else {
                assert(y.contains(y[i]));
                assert(y.contains(y[j]));
                assert(x.to_multiset().count(y[i]) > 0);
                assert(x.to_multiset().count(y[j]) > 0);
                assert(x.contains(y[i]));
                assert(x.contains(y[j]));
                let a = choose|k: int| 0 <= k < x.len() && x[k] == y[i];
                let b = choose|k: int| 0 <= k < x.len() && x[k] == y[j];
                assert(a != b);
                if a < b {
                    assert(key_of(x[a].reference) != key_of(x[b].reference));
                } else {
                    assert(key_of(x[b].reference) != key_of(x[a].reference));
                }
                assert(false);
            }
        }
    }
}

/// The filter never duplicates: a record occurs in `keep_only(s)` at
/// most as often as in `s`.
proof fn lemma_keep_only_count(s: Seq<UsernameV>, v: UsernameV)
    ensures
        keep_only(s).to_multiset().count(v) <= s.to_multiset().count(v),
    decreases s.len(),
{
    if s.len() == 0 {
        assert(keep_only(s) =~= Seq::<UsernameV>::empty());
        assert(!keep_only(s).contains(v));
    } else {
        let d = s.drop_first();
        lemma_keep_only_count(d, v);
        assert(s.remove(0) =~= d);
        assert(s.remove(0).to_multiset() =~= s.to_multiset().remove(s[0]));
        assert(s.contains(s[0]));
        assert(s.to_multiset().count(s[0]) >= 1);
        assert(s.to_multiset().count(v) == d.to_multiset().count(v) + (if v == s[0] {
            1int
        } else {
            0int
        }));
        if keep(s[0]) {
            let t = keep_only(s);
            assert(t == seq![s[0]] + keep_only(d));
            assert(t[0] == s[0]);
            assert(t.remove(0) =~= keep_only(d));
            assert(t.remove(0).to_multiset() =~= t.to_multiset().remove(t[0]));
            assert(t.contains(t[0]));
            assert(t.to_multiset().count(t[0]) >= 1);
            assert(t.to_multiset().count(v) == keep_only(d).to_multiset().count(v) + (if v == s[0] {
                1int
            } else {
                0int
            }));
        } else {
            assert(keep_only(s) == keep_only(d));
        }
    }
}

/// The filter keeps keys distinct.
proof fn lemma_keep_only_distinct(s: Seq<UsernameV>)
    requires
        distinct_keys(s),
    ensures
        distinct_keys(keep_only(s)),
{
    let t = keep_only(s);
    assert forall|i: int, j: int|
        0 <= i < j < t.len() implies key_of(#[trigger] t[i].reference) != key_of(
        #[trigger] t[j].reference,
    ) by {
        if key_of(t[i].reference) == key_of(t[j].reference) {
            if t[i] == t[j] {
                lemma_count_at_two_indices(t, i, j);
                lemma_keep_only_count(s, t[i]);
                let r = lemma_two_indices_from_count(s, t[i]);
                assert(key_of(s[r.0].reference) != key_of(s[r.1].reference));
                assert(false);
            } else {
                assert(t.contains(t[i]));
                assert(t.to_multiset().count(t[i]) > 0);
                lemma_keep_only_count(s, t[i]);
                assert(s.to_multiset().count(t[i]) > 0);
                assert(s.contains(t[i]));
                assert(t.contains(t[j]));
                assert(t.to_multiset().count(t[j]) > 0);
                lemma_keep_only_count(s, t[j]);
                assert(s.to_multiset().count(t[j]) > 0);
                assert(s.contains(t[j]));
                let a = choose|k: int| 0 <= k < s.len() && s[k] == t[i];
                let b = choose|k: int| 0 <= k < s.len() && s[k] == t[j];
                assert(a != b);
                if a < b {
                    assert(key_of(s[a].reference) != key_of(s[b].reference));
                } else {
                    assert(key_of(s[b].reference) != key_of(s[a].reference));
                }
                assert(false);
            }
        }
    }
}

/// Law: on records with one entry per identity — what the aggregator
/// hands out — the assembler's contract pins its result completely.
/// Any two outputs that are ranked and hold exactly the surviving
/// records are equal, so the final order never depends on how sorting
/// or resolution happened to proceed.
pub proof fn lemma_assembled_output_deterministic(
    input: Seq<UsernameV>,
    out1: Seq<UsernameV>,
    out2: Seq<UsernameV>,
)
    requires
        distinct_keys(input),
        sorted_by(out1, rank_leq()),
        out1.to_multiset() == keep_only(input).to_multiset(),
        sorted_by(out2, rank_leq()),
        out2.to_multiset() == keep_only(input).to_multiset(),
    ensures
        out1 == out2,
{
    lemma_keep_only_distinct(input);
    lemma_distinct_keys_transfer(keep_only(input), out1);
    lemma_ranked_output_unique(out1, out2);
}

} // verus!

