//! The reference classifier for link texts.
//!
//! A link text is scanned for the service link prefix `https://t.me/`
//! followed by a path segment.  The leftmost position where the prefix is
//! followed by at least one acceptable character decides the outcome:
//! a plain alphanumeric/underscore segment names a public chat, unless it
//! is one of the reserved non-entity keywords; a `joinchat/` segment or a
//! leading `+` introduces an opaque invite token.  Plain-name
//! classification is attempted first, the invite-hash pattern only when
//! it fails, and at most one reference is extracted per text.

use crate::chars::{hash_char, is_hash_char, is_name_char, name_char};
use vstd::prelude::*;
use vstd::string::*;

verus! {

/// One typed chat reference.
#[derive(Debug, PartialEq, Eq)]
pub enum LinkType {
    /// A public, directory-resolvable name taken from a URL path segment.
    Username(String),
    /// An opaque invite token, not resolvable by name.
    Hash(String),
    /// A public name taken from a structured mention annotation.
    Mention(String),
}

/// The mathematical value of a [`LinkType`]: the same three variants over
/// character sequences.
pub enum LinkTypeV {
    Username(Seq<char>),
    Hash(Seq<char>),
    Mention(Seq<char>),
}

impl View for LinkType {
    type V = LinkTypeV;

    open spec fn view(&self) -> LinkTypeV {
        match self {
            LinkType::Username(s) => LinkTypeV::Username(s@),
            LinkType::Hash(s) => LinkTypeV::Hash(s@),
            LinkType::Mention(s) => LinkTypeV::Mention(s@),
        }
    }
}

/// The raw identifier carried by a reference, without its variant tag.
pub open spec fn ident_of(r: LinkTypeV) -> Seq<char> {
    match r {
        LinkTypeV::Username(s) => s,
        LinkTypeV::Hash(s) => s,
        LinkTypeV::Mention(s) => s,
    }
}

impl LinkType {
    /// The identifier carried by this reference.
    pub fn to_string(&self) -> (r: String)
        ensures
            r@ == ident_of(self@),
    {
        match self {
            LinkType::Username(s) => s.clone(),
            LinkType::Hash(s) => s.clone(),
            LinkType::Mention(s) => s.clone(),
        }
    }
}

/// The service link prefix that every classified link starts with.
pub open spec fn link_prefix() -> Seq<char> {
    seq!['h', 't', 't', 'p', 's', ':', '/', '/', 't', '.', 'm', 'e', '/']
}

/// The path segment that introduces an invite token by name.
pub open spec fn joinchat_seg() -> Seq<char> {
    seq!['j', 'o', 'i', 'n', 'c', 'h', 'a', 't', '/']
}

/// The link prefix occurs in `s` at position `i`.
pub open spec fn prefix_at(s: Seq<char>, i: int) -> bool {
    0 <= i && i + 13 <= s.len() && s.subrange(i, i + 13) == link_prefix()
}

/// The first position at or after `j` whose character fails `pred`
/// (`s.len()` when every remaining character passes): the end of the
/// maximal run of `pred` characters starting at `j`.
pub open spec fn scan_end(s: Seq<char>, j: int, pred: spec_fn(char) -> bool) -> int
    decreases s.len() - j,
{
    if j < 0 || j >= s.len() {
        j
    } else if pred(s[j]) {
        scan_end(s, j + 1, pred)
    } else {
        j
    }
}

pub proof fn lemma_scan_end(s: Seq<char>, j: int, pred: spec_fn(char) -> bool)
    requires
        0 <= j <= s.len(),
    ensures
        j <= scan_end(s, j, pred) <= s.len(),
        forall|k: int| j <= k < scan_end(s, j, pred) ==> pred(s[k]),
        scan_end(s, j, pred) < s.len() ==> !pred(s[scan_end(s, j, pred)]),
    decreases s.len() - j,
{
    if j < s.len() && pred(s[j]) {
        lemma_scan_end(s, j + 1, pred);
    }
}

/// A run of `pred` characters from `j` up to `e`, with `e` the end of
/// the text or a failing character, fixes `scan_end` at `e`.
pub proof fn lemma_scan_end_stops(s: Seq<char>, j: int, e: int, pred: spec_fn(char) -> bool)
    requires
        0 <= j <= e <= s.len(),
        forall|k: int| j <= k < e ==> pred(s[k]),
        e < s.len() ==> !pred(s[e]),
    ensures
        scan_end(s, j, pred) == e,
    decreases e - j,
{
    if j < e {
        assert(pred(s[j]));
        lemma_scan_end_stops(s, j + 1, e, pred);
    } else {
        if j < s.len() {
            assert(!pred(s[j]));
        }
    }
}

/// A plain-name match sits at `i`: the prefix, then at least one name
/// character.
pub open spec fn username_match_at(s: Seq<char>, i: int) -> bool {
    prefix_at(s, i) && i + 13 < s.len() && is_name_char(s[i + 13])
}

/// The leftmost plain-name match at or after `i`, or `-1`.
pub open spec fn first_username_start(s: Seq<char>, i: int) -> int
    decreases s.len() - i,
{
    if i < 0 || i + 14 > s.len() {
        -1
    } else if username_match_at(s, i) {
        i
    } else {
        first_username_start(s, i + 1)
    }
}

/// The captured path segment of the leftmost plain-name match.
pub open spec fn username_capture(s: Seq<char>) -> Option<Seq<char>> {
    let i = first_username_start(s, 0);
    if i == -1 {
        None
    } else {
        Some(s.subrange(i + 13, scan_end(s, i + 13, |c: char| is_name_char(c))))
    }
}

/// The closed set of reserved non-entity path segments: administrative or
/// action paths that never name a chat.
pub open spec fn is_reserved(n: Seq<char>) -> bool {
    ||| n == "joinchat"@
    ||| n == "addstickers"@
    ||| n == "addemoji"@
    ||| n == "addtheme"@
    ||| n == "share"@
    ||| n == "socks"@
    ||| n == "proxy"@
    ||| n == "bg"@
    ||| n == "login"@
    ||| n == "invoice"@
    ||| n == "setlanguage"@
    ||| n == "confirmphone"@
    ||| n == "path"@
    ||| n == "c"@
}

/// What plain-name classification returns: the leftmost captured
/// segment, unless it is reserved.
pub open spec fn spec_extract_username(s: Seq<char>) -> Option<Seq<char>> {
    match username_capture(s) {
        None => None,
        Some(n) => if is_reserved(n) {
            None
        } else {
            Some(n)
        },
    }
}

/// An invite match with the named `joinchat/` segment sits at `i`.
pub open spec fn joinchat_arm(s: Seq<char>, i: int) -> bool {
    i + 22 < s.len() && s.subrange(i + 13, i + 22) == joinchat_seg() && is_hash_char(s[i + 22])
}

/// An invite match with a leading `+` sits at `i`.
pub open spec fn plus_arm(s: Seq<char>, i: int) -> bool {
    i + 14 < s.len() && s[i + 13] == '+' && is_hash_char(s[i + 14])
}

/// An invite-hash match sits at `i`: the prefix, then either arm.
pub open spec fn hash_match_at(s: Seq<char>, i: int) -> bool {
    prefix_at(s, i) && (joinchat_arm(s, i) || plus_arm(s, i))
}

/// The leftmost invite-hash match at or after `i`, or `-1`.
pub open spec fn first_hash_start(s: Seq<char>, i: int) -> int
    decreases s.len() - i,
{
    if i < 0 || i + 15 > s.len() {
        -1
    } else if hash_match_at(s, i) {
        i
    } else {
        first_hash_start(s, i + 1)
    }
}

/// What invite-hash classification returns: the token of the leftmost
/// invite-hash match.
pub open spec fn spec_extract_hash(s: Seq<char>) -> Option<Seq<char>> {
    let i = first_hash_start(s, 0);
    if i == -1 {
        None
    } else if joinchat_arm(s, i) {
        Some(s.subrange(i + 22, scan_end(s, i + 22, |c: char| is_hash_char(c))))
    } else {
        Some(s.subrange(i + 14, scan_end(s, i + 14, |c: char| is_hash_char(c))))
    }
}

/// What link classification returns: the plain name when one is captured
/// and not reserved, otherwise the invite token when one matches,
/// otherwise nothing.
pub open spec fn spec_extract(s: Seq<char>) -> Option<LinkTypeV> {
    match spec_extract_username(s) {
        Some(n) => Some(LinkTypeV::Username(n)),
        None => match spec_extract_hash(s) {
            Some(h) => Some(LinkTypeV::Hash(h)),
            None => None,
        },
    }
}

fn str_eq(a: &str, b: &str) -> (r: bool)
    ensures
        r == (a@ == b@),
{
    let oa: String = a.to_owned();
    let ob: String = b.to_owned();
    oa == ob
}

fn is_reserved_str(n: &str) -> (r: bool)
    ensures
        r == is_reserved(n@),
{
    str_eq(n, "joinchat") || str_eq(n, "addstickers") || str_eq(n, "addemoji") || str_eq(
        n,
        "addtheme",
    ) || str_eq(n, "share") || str_eq(n, "socks") || str_eq(n, "proxy") || str_eq(n, "bg")
        || str_eq(n, "login") || str_eq(n, "invoice") || str_eq(n, "setlanguage") || str_eq(
        n,
        "confirmphone",
    ) || str_eq(n, "path") || str_eq(n, "c")
}

/// Does the link prefix sit at position `i` of `s`?
fn prefix_matches(s: &str, i: usize) -> (r: bool)
    requires
        i + 13 <= s@.len(),
        s@.len() <= usize::MAX,
    ensures
        r == prefix_at(s@, i as int),
{
    let r = s.get_char(i) == 'h' && s.get_char(i + 1) == 't' && s.get_char(i + 2) == 't'
        && s.get_char(i + 3) == 'p' && s.get_char(i + 4) == 's' && s.get_char(i + 5) == ':'
        && s.get_char(i + 6) == '/' && s.get_char(i + 7) == '/' && s.get_char(i + 8) == 't'
        && s.get_char(i + 9) == '.' && s.get_char(i + 10) == 'm' && s.get_char(i + 11) == 'e'
        && s.get_char(i + 12) == '/';
    proof {
        if r {
            assert(s@.subrange(i as int, i as int + 13) =~= link_prefix());
        } else {
            if prefix_at(s@, i as int) {
                assert(forall|k: int|
                    0 <= k < 13 ==> s@.subrange(i as int, i as int + 13)[k] == link_prefix()[k]);
                assert(s@[i as int] == 'h');
                assert(s@[i + 1 as int] == 't');
                assert(s@[i + 2 as int] == 't');
                assert(s@[i + 3 as int] == 'p');
                assert(s@[i + 4 as int] == 's');
                assert(s@[i + 5 as int] == ':');
                assert(s@[i + 6 as int] == '/');
                assert(s@[i + 7 as int] == '/');
                assert(s@[i + 8 as int] == 't');
                assert(s@[i + 9 as int] == '.');
                assert(s@[i + 10 as int] == 'm');
                assert(s@[i + 11 as int] == 'e');
                assert(s@[i + 12 as int] == '/');
            }
        }
    }
    r
}

/// Does the `joinchat/` segment sit at position `j` of `s`?
fn joinchat_matches(s: &str, j: usize) -> (r: bool)
    requires
        j + 9 <= s@.len(),
        s@.len() <= usize::MAX,
    ensures
        r == (s@.subrange(j as int, j as int + 9) == joinchat_seg()),
{
    let r = s.get_char(j) == 'j' && s.get_char(j + 1) == 'o' && s.get_char(j + 2) == 'i'
        && s.get_char(j + 3) == 'n' && s.get_char(j + 4) == 'c' && s.get_char(j + 5) == 'h'
        && s.get_char(j + 6) == 'a' && s.get_char(j + 7) == 't' && s.get_char(j + 8) == '/';
    proof {
        if r {
            assert(s@.subrange(j as int, j as int + 9) =~= joinchat_seg());
        } else {
            if s@.subrange(j as int, j as int + 9) == joinchat_seg() {
                assert(forall|k: int|
                    0 <= k < 9 ==> s@.subrange(j as int, j as int + 9)[k] == joinchat_seg()[k]);
                assert(s@[j as int] == 'j');
                assert(s@[j + 1 as int] == 'o');
                assert(s@[j + 2 as int] == 'i');
                assert(s@[j + 3 as int] == 'n');
                assert(s@[j + 4 as int] == 'c');
                assert(s@[j + 5 as int] == 'h');
                assert(s@[j + 6 as int] == 'a');
                assert(s@[j + 7 as int] == 't');
                assert(s@[j + 8 as int] == '/');
            }
        }
    }
    r
}

/// Scan forward from `from` over characters passing `name_char` and
/// return the end of the run.
fn name_run_end(s: &str, from: usize, n: usize) -> (e: usize)
    requires
        n == s@.len(),
        from <= n,
    ensures
        e as int == scan_end(s@, from as int, |c: char| is_name_char(c)),
{
    let mut e = from;
    while e < n && name_char(s.get_char(e))
        invariant
            n == s@.len(),
            from <= e <= n,
            scan_end(s@, from as int, |c: char| is_name_char(c)) == scan_end(
                s@,
                e as int,
                |c: char| is_name_char(c),
            ),
        decreases n - e,
    {
        e = e + 1;
    }
    e
}

/// Scan forward from `from` over characters passing `hash_char` and
/// return the end of the run.
fn hash_run_end(s: &str, from: usize, n: usize) -> (e: usize)
    requires
        n == s@.len(),
        from <= n,
    ensures
        e as int == scan_end(s@, from as int, |c: char| is_hash_char(c)),
{
    let mut e = from;
    while e < n && hash_char(s.get_char(e))
        invariant
            n == s@.len(),
            from <= e <= n,
            scan_end(s@, from as int, |c: char| is_hash_char(c)) == scan_end(
                s@,
                e as int,
                |c: char| is_hash_char(c),
            ),
        decreases n - e,
    {
        e = e + 1;
    }
    e
}

/// Plain-name link classification: the path segment of the leftmost
/// plain-name match, unless that segment is reserved.
pub fn extract_username(link: &str) -> (r: Option<String>)
    ensures
        match (r, spec_extract_username(link@)) {
            (Some(u), Some(n)) => u@ == n,
            (None, None) => true,
            _ => false,
        },
{
    let ghost s = link@;
    let n = link.unicode_len();
    if n < 14 {
        return None;
    }
    let mut i: usize = 0;
    while i <= n - 14
        invariant
            s == link@,
            n == s.len(),
            14 <= n,
            i <= n - 13,
            first_username_start(s, 0) == first_username_start(s, i as int),
        decreases n - i,
    {
        if prefix_matches(link, i) && name_char(link.get_char(i + 13)) {
            assert(username_match_at(s, i as int));
            assert(first_username_start(s, i as int) == i as int);
            let e = name_run_end(link, i + 13, n);
            proof {
                lemma_scan_end(s, i + 13 as int, |c: char| is_name_char(c));
            }
            let cap = link.substring_char(i + 13, e);
            if is_reserved_str(cap) {
                return None;
            } else {
                return Some(cap.to_owned());
            }
        }
        i = i + 1;
    }
    assert(first_username_start(s, i as int) == -1);
    None
}

/// Invite-hash link classification: the token of the leftmost
/// invite-hash match.
pub fn extract_hash(link: &str) -> (r: Option<String>)
    ensures
        match (r, spec_extract_hash(link@)) {
            (Some(u), Some(t)) => u@ == t,
            (None, None) => true,
            _ => false,
        },
{
    let ghost s = link@;
    let n = link.unicode_len();
    if n < 15 {
        return None;
    }
    let mut i: usize = 0;
    while i <= n - 15
        invariant
            s == link@,
            n == s.len(),
            15 <= n,
            i <= n - 14,
            first_hash_start(s, 0) == first_hash_start(s, i as int),
        decreases n - i,
    {
        if prefix_matches(link, i) {
            if n - i >= 23 && joinchat_matches(link, i + 13) && hash_char(link.get_char(i + 22)) {
                assert(joinchat_arm(s, i as int));
                assert(first_hash_start(s, i as int) == i as int);
                let e = hash_run_end(link, i + 22, n);
                proof {
                    lemma_scan_end(s, i + 22 as int, |c: char| is_hash_char(c));
                }
                let cap = link.substring_char(i + 22, e);
                return Some(cap.to_owned());
            }
            if link.get_char(i + 13) == '+' && hash_char(link.get_char(i + 14)) {
                assert(plus_arm(s, i as int));
                assert(first_hash_start(s, i as int) == i as int);
                assert(!joinchat_arm(s, i as int)) by {
                    if joinchat_arm(s, i as int) {
                        assert(s.subrange(i + 13 as int, i + 22 as int)[0] == joinchat_seg()[0]);
                    }
                }
                let e = hash_run_end(link, i + 14, n);
                proof {
                    lemma_scan_end(s, i + 14 as int, |c: char| is_hash_char(c));
                }
                let cap = link.substring_char(i + 14, e);
                return Some(cap.to_owned());
            }
            assert(!hash_match_at(s, i as int));
        }
        i = i + 1;
    }
    assert(first_hash_start(s, i as int) == -1);
    None
}

/// Link classification: reserved-keyword check first, then plain name,
/// then invite hash; at most one reference per input.
pub fn extract(link: &str) -> (r: Option<LinkType>)
    ensures
        match (r, spec_extract(link@)) {
            (Some(l), Some(v)) => l@ == v,
            (None, None) => true,
            _ => false,
        },
{
    match extract_username(link) {
        Some(u) => Some(LinkType::Username(u)),
        None => match extract_hash(link) {
            Some(h) => Some(LinkType::Hash(h)),
            None => None,
        },
    }
}

/// Law: a reserved path segment never classifies as a public name.  A
/// text whose captured segment is reserved and which holds no invite
/// pattern classifies as nothing at all.
pub proof fn lemma_reserved_never_public(s: Seq<char>)
    ensures
        spec_extract(s) matches Some(LinkTypeV::Username(n)) ==> !is_reserved(n),
        (username_capture(s) matches Some(n) && is_reserved(n) && spec_extract_hash(s) is None)
            ==> spec_extract(s) is None,
{
}

proof fn lemma_no_username_from(s: Seq<char>, i: int)
    requires
        0 <= i,
        forall|j: int| i <= j ==> !username_match_at(s, j),
    ensures
        first_username_start(s, i) == -1,
    decreases s.len() - i,
{
    if i + 14 <= s.len() {
        assert(!username_match_at(s, i));
        lemma_no_username_from(s, i + 1);
    }
}

proof fn lemma_link_prefix_chars()
    ensures
        link_prefix().len() == 13,
        link_prefix()[0] == 'h',
        link_prefix()[1] == 't',
        link_prefix()[2] == 't',
        link_prefix()[3] == 'p',
        link_prefix()[4] == 's',
        link_prefix()[5] == ':',
        link_prefix()[6] == '/',
        link_prefix()[7] == '/',
        link_prefix()[8] == 't',
        link_prefix()[9] == '.',
        link_prefix()[10] == 'm',
        link_prefix()[11] == 'e',
        link_prefix()[12] == '/',
{
}

/// When what follows the prefix holds no `:`, the prefix occurs only at
/// the front: `:` occurs in the prefix alone, at one position.
proof fn lemma_prefix_only_at_front(rest: Seq<char>)
    requires
        forall|k: int| 0 <= k < rest.len() ==> rest[k] != ':',
    ensures
        forall|i: int| prefix_at(link_prefix() + rest, i) ==> i == 0,
{
    let s = link_prefix() + rest;
    lemma_link_prefix_chars();
    assert forall|i: int| prefix_at(s, i) implies i == 0 by {
        if prefix_at(s, i) && i != 0 {
            assert(s.subrange(i, i + 13)[5] == link_prefix()[5]);
            assert(s[i + 5] == ':');
            if i + 5 >= 13 {
                assert(s[i + 5] == rest[i + 5 - 13]);
            } else {
                assert(s[i + 5] == link_prefix()[i + 5]);
            }
            assert(false);
        }
    }
}

/// Law: a link text of the service prefix followed by a bare
/// alphanumeric/underscore segment that is not reserved classifies as a
/// public name carrying that segment, case preserved.
pub proof fn lemma_plain_name_classified(name: Seq<char>)
    requires
        name.len() > 0,
        forall|k: int| 0 <= k < name.len() ==> is_name_char(#[trigger] name[k]),
        !is_reserved(name),
    ensures
        spec_extract(link_prefix() + name) == Some(LinkTypeV::Username(name)),
{
    let s = link_prefix() + name;
    assert(s.subrange(0, 13) =~= link_prefix());
    assert(s[13] == name[0]);
    assert(username_match_at(s, 0));
    assert(first_username_start(s, 0) == 0);
    let pred = |c: char| is_name_char(c);
    assert forall|k: int| 13 <= k < s.len() implies pred(s[k]) by {
        assert(s[k] == name[k - 13]);
    }
    lemma_scan_end_stops(s, 13, s.len() as int, pred);
    assert(s.subrange(13, s.len() as int) =~= name);
    assert(username_capture(s) == Some(name));
}

/// Law: a link text of the service prefix followed by `+` and a
/// nonempty invite token classifies as an invite hash carrying that
/// token.
pub proof fn lemma_invite_plus_classified(token: Seq<char>)
    requires
        token.len() > 0,
        forall|k: int| 0 <= k < token.len() ==> is_hash_char(#[trigger] token[k]),
    ensures
        spec_extract(link_prefix() + seq!['+'] + token) == Some(LinkTypeV::Hash(token)),
{
    let rest = seq!['+'] + token;
    let s = link_prefix() + rest;
    assert(link_prefix() + seq!['+'] + token =~= s);
    lemma_link_prefix_chars();
    assert(rest[0] == '+');
    assert forall|k: int| 0 <= k < rest.len() implies rest[k] != ':' by {
        if k > 0 {
            assert(rest[k] == token[k - 1]);
            assert(is_hash_char(token[k - 1]));
        }
    }
    lemma_prefix_only_at_front(rest);
    assert(s.subrange(0, 13) =~= link_prefix());
    assert(prefix_at(s, 0));
    assert(s[13] == '+');
    assert(s[14] == token[0]);
    // no plain-name match anywhere
    assert forall|j: int| 0 <= j implies !username_match_at(s, j) by {
        if username_match_at(s, j) {
            assert(j == 0);
            assert(is_name_char('+'));
        }
    }
    lemma_no_username_from(s, 0);
    assert(spec_extract_username(s) is None);
    // the invite match sits at the front
    assert(plus_arm(s, 0));
    assert(hash_match_at(s, 0));
    assert(first_hash_start(s, 0) == 0);
    assert(!joinchat_arm(s, 0)) by {
        if joinchat_arm(s, 0) {
            assert(s.subrange(13, 22)[0] == joinchat_seg()[0]);
        }
    }
    let pred = |c: char| is_hash_char(c);
    assert forall|k: int| 14 <= k < s.len() implies pred(s[k]) by {
        assert(s[k] == token[k - 14]);
    }
    lemma_scan_end_stops(s, 14, s.len() as int, pred);
    assert(s.subrange(14, s.len() as int) =~= token);
}

proof fn lemma_joinchat_seg_chars()
    ensures
        joinchat_seg().len() == 9,
        joinchat_seg()[0] == 'j',
        joinchat_seg()[1] == 'o',
        joinchat_seg()[2] == 'i',
        joinchat_seg()[3] == 'n',
        joinchat_seg()[4] == 'c',
        joinchat_seg()[5] == 'h',
        joinchat_seg()[6] == 'a',
        joinchat_seg()[7] == 't',
        joinchat_seg()[8] == '/',
{
}

/// Law: a link text of the service prefix followed by `joinchat/` and a
/// nonempty invite token classifies as an invite hash carrying that
/// token — the captured `joinchat` segment is reserved, so plain-name
/// classification yields nothing and the invite pattern decides.
pub proof fn lemma_invite_joinchat_classified(token: Seq<char>)
    requires
        token.len() > 0,
        forall|k: int| 0 <= k < token.len() ==> is_hash_char(#[trigger] token[k]),
    ensures
        spec_extract(link_prefix() + joinchat_seg() + token) == Some(LinkTypeV::Hash(token)),
{
    let s = link_prefix() + joinchat_seg() + token;
    lemma_link_prefix_chars();
    lemma_joinchat_seg_chars();
    assert(s.subrange(0, 13) =~= link_prefix());
    assert(prefix_at(s, 0));
    assert forall|k: int| 0 <= k < s.len() implies s[k] == (if k < 13 {
        link_prefix()[k]
    } else if k < 22 {
        joinchat_seg()[k - 13]
    } else {
        token[k - 22]
    }) by {
        if k < 22 {
            assert(s[k] == (link_prefix() + joinchat_seg())[k]);
        } else {
            assert(s[k] == token[k - 22]);
        }
    }
    // the plain-name capture is exactly `joinchat`, which is reserved
    assert(is_name_char(s[13]));
    assert(username_match_at(s, 0));
    assert(first_username_start(s, 0) == 0);
    let pred = |c: char| is_name_char(c);
    assert forall|k: int| 13 <= k < 21 implies pred(s[k]) by {}
    assert(s[21] == '/');
    assert(!pred(s[21]));
    lemma_scan_end_stops(s, 13, 21, pred);
    let cap = s.subrange(13, 21);
    assert(username_capture(s) == Some(cap));
    assert(is_reserved(cap)) by {
        reveal_strlit("joinchat");
        assert(cap.len() == 8);
        assert(cap =~= "joinchat"@);
    }
    assert(spec_extract_username(s) is None);
    // the invite match sits at the front
    assert(s.subrange(13, 22) =~= joinchat_seg());
    assert(s[22] == token[0]);
    assert(joinchat_arm(s, 0));
    assert(hash_match_at(s, 0));
    assert(first_hash_start(s, 0) == 0);
    let hpred = |c: char| is_hash_char(c);
    assert forall|k: int| 22 <= k < s.len() implies hpred(s[k]) by {
        assert(s[k] == token[k - 22]);
    }
    lemma_scan_end_stops(s, 22, s.len() as int, hpred);
    assert(s.subrange(22, s.len() as int) =~= token);
}

} // verus!
