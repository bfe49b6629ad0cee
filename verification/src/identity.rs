//! The identity resolver: derives one stable identity string for a feed
//! entry from whatever fields the upstream document populated, preferring the
//! most stable signal. The four strategies are tagged with distinct prefixes
//! so they can never collide with each other.

use vstd::prelude::*;

verus! {

use sha1::Digest;
use vstd::utf8::encode_utf8;
use vstd::string::StringSliceAdditionalSpecFns;
use crate::strutil::{all_ws, dec_int, i64_to_dec, is_blank, str_eq};

/// One link of an entry: its target and its optional relation label.
pub struct FeedLink {
    pub href: String,
    pub rel: Option<String>,
}

/// One feed entry, reduced to the fields the resolver and the formatter
/// read. Every field may be missing; an absent upstream id is the empty
/// string, and `published` is a unix timestamp in seconds.
pub struct FeedEntry {
    pub id: String,
    pub links: Vec<FeedLink>,
    pub title: Option<String>,
    pub summary: Option<String>,
    pub content: Option<String>,
    pub published: Option<i64>,
}

/// A link counts as "alternate" when labeled so, or when unlabeled.
pub open spec fn link_is_alt(l: FeedLink) -> bool {
    match l.rel {
        None => true,
        Some(r) => r@ == "alternate"@,
    }
}

/// Index of the first alternate link, if any.
pub open spec fn first_alt(links: Seq<FeedLink>) -> Option<int>
    decreases links.len(),
{
    if links.len() == 0 {
        None
    } else if link_is_alt(links[0]) {
        Some(0int)
    } else {
        match first_alt(links.drop_first()) {
            None => None,
            Some(i) => Some(i + 1),
        }
    }
}

/// Target of the first alternate link, if any.
pub open spec fn alt_href(links: Seq<FeedLink>) -> Option<Seq<char>> {
    match first_alt(links) {
        None => None,
        Some(i) => Some(links[i].href@),
    }
}

/// The bytes hashed by the last-resort strategy: title, then the alternate
/// link, then (only beside a timestamp) the summary, then the body content,
/// newline-separated, each UTF-8 encoded, absent parts skipped.
pub open spec fn hash_input(e: FeedEntry) -> Seq<u8> {
    let t = match e.title {
        Some(t) => encode_utf8(t@),
        None => Seq::<u8>::empty(),
    };
    let l = match alt_href(e.links@) {
        Some(h) => seq![10u8] + encode_utf8(h),
        None => Seq::<u8>::empty(),
    };
    let s = if e.summary is Some && e.published is Some {
        seq![10u8] + encode_utf8(e.summary->0@)
    } else {
        Seq::<u8>::empty()
    };
    let c = match e.content {
        Some(c) => seq![10u8] + encode_utf8(c@),
        None => Seq::<u8>::empty(),
    };
    t + l + s + c
}

/// The SHA-1 digest of a byte sequence, named but not written out here: the
/// hash itself is computed by the sha1 crate.
pub uninterp spec fn sha1_of(data: Seq<u8>) -> Seq<u8>;

/// Relies on sha1's `Sha1` through the `Digest` interface: the digest
/// depends on the input bytes alone and is 20 bytes long.
#[verifier::external_body]
fn sha1_digest(data: &Vec<u8>) -> (r: Vec<u8>)
    ensures
        r@ == sha1_of(data@),
        r@.len() == 20,
{
    sha1::Sha1::digest(data.as_slice()).to_vec()
}

/// The character for one hexadecimal digit value, lower case.
pub open spec fn hex_char(d: nat) -> char {
    if d == 0 {
        '0'
    } else if d == 1 {
        '1'
    } else if d == 2 {
        '2'
    } else if d == 3 {
        '3'
    } else if d == 4 {
        '4'
    } else if d == 5 {
        '5'
    } else if d == 6 {
        '6'
    } else if d == 7 {
        '7'
    } else if d == 8 {
        '8'
    } else if d == 9 {
        '9'
    } else if d == 10 {
        'a'
    } else if d == 11 {
        'b'
    } else if d == 12 {
        'c'
    } else if d == 13 {
        'd'
    } else if d == 14 {
        'e'
    } else {
        'f'
    }
}

/// Lower-case hexadecimal rendering, two digits per byte.
pub open spec fn hex_of(bytes: Seq<u8>) -> Seq<char>
    decreases bytes.len(),
{
    if bytes.len() == 0 {
        Seq::<char>::empty()
    } else {
        hex_of(bytes.drop_last()) + seq![
            hex_char((bytes.last() / 16) as nat),
            hex_char((bytes.last() % 16) as nat),
        ]
    }
}

fn hex_str(d: u8) -> (r: &'static str)
    requires
        d < 16,
    ensures
        r@ == seq![hex_char(d as nat)],
{
    if d == 0 {
        proof { reveal_strlit("0"); }
        "0"
    } else if d == 1 {
        proof { reveal_strlit("1"); }
        "1"
    } else if d == 2 {
        proof { reveal_strlit("2"); }
        "2"
    } else if d == 3 {
        proof { reveal_strlit("3"); }
        "3"
    } else if d == 4 {
        proof { reveal_strlit("4"); }
        "4"
    } else if d == 5 {
        proof { reveal_strlit("5"); }
        "5"
    } else if d == 6 {
        proof { reveal_strlit("6"); }
        "6"
    } else if d == 7 {
        proof { reveal_strlit("7"); }
        "7"
    } else if d == 8 {
        proof { reveal_strlit("8"); }
        "8"
    } else if d == 9 {
        proof { reveal_strlit("9"); }
        "9"
    } else if d == 10 {
        proof { reveal_strlit("a"); }
        "a"
    } else if d == 11 {
        proof { reveal_strlit("b"); }
        "b"
    } else if d == 12 {
        proof { reveal_strlit("c"); }
        "c"
    } else if d == 13 {
        proof { reveal_strlit("d"); }
        "d"
    } else if d == 14 {
        proof { reveal_strlit("e"); }
        "e"
    } else {
        proof { reveal_strlit("f"); }
        "f"
    }
}

/// Renders bytes as lower-case hexadecimal.
pub fn to_hex(bytes: &Vec<u8>) -> (r: String)
    ensures
        r@ == hex_of(bytes@),
{
    let mut s = String::new();
    let n = bytes.len();
    let mut i: usize = 0;
    proof {
        assert(bytes@.take(0) =~= Seq::<u8>::empty());
    }
    while i < n
        invariant
            n == bytes@.len(),
            i <= n,
            s@ == hex_of(bytes@.take(i as int)),
        decreases n - i,
    {
        let b = bytes[i];
        s.append(hex_str(b / 16));
        s.append(hex_str(b % 16));
        proof {
            assert(bytes@.take(i as int + 1).drop_last() =~= bytes@.take(i as int));
            assert(bytes@.take(i as int + 1).last() == bytes@[i as int]);
        }
        i += 1;
    }
    proof {
        assert(bytes@.take(n as int) =~= bytes@);
    }
    s
}

/// The resolved identity of an entry, by the first applicable strategy:
/// the upstream id, else alternate link and timestamp, else title and
/// timestamp, else a digest of the remaining content.
pub open spec fn spec_entry_id(e: FeedEntry) -> Seq<char> {
    if e.id@.len() > 0 {
        "guid:"@ + e.id@
    } else if alt_href(e.links@) is Some && e.published is Some {
        "link:"@ + alt_href(e.links@)->0 + ":"@ + dec_int(e.published->0 as int)
    } else if e.title is Some && e.published is Some {
        "titlepub:"@ + e.title->0@ + dec_int(e.published->0 as int)
    } else {
        "sha1:"@ + hex_of(sha1_of(hash_input(e)))
    }
}

fn find_alt(links: &Vec<FeedLink>) -> (r: Option<usize>)
    ensures
        match r {
            None => first_alt(links@) is None,
            Some(i) => i < links@.len() && first_alt(links@) == Some(i as int),
        },
{
    let n = links.len();
    let mut i: usize = 0;
    proof {
        assert(links@.skip(0) =~= links@);
    }
    while i < n
        invariant
            n == links@.len(),
            i <= n,
            first_alt(links@) == match first_alt(links@.skip(i as int)) {
                None => None::<int>,
                Some(k) => Some(k + i),
            },
        decreases n - i,
    {
        proof {
            assert(links@.skip(i as int)[0] == links@[i as int]);
            assert(links@.skip(i as int).drop_first() =~= links@.skip(i as int + 1));
        }
        let is_alt = match &links[i].rel {
            None => true,
            Some(r) => str_eq(r.as_str(), "alternate"),
        };
        if is_alt {
            proof {
                assert(link_is_alt(links@[i as int]));
                assert(first_alt(links@.skip(i as int)) == Some(0int));
            }
            return Some(i);
        }
        proof {
            assert(!link_is_alt(links@[i as int]));
        }
        i += 1;
    }
    proof {
        assert(links@.skip(n as int).len() == 0);
    }
    None
}

/// Resolves the identity of `entry`; never empty, deterministic in the
/// entry's contents.
pub fn entry_id(entry: &FeedEntry) -> (r: String)
    ensures
        r@ == spec_entry_id(*entry),
        r@.len() > 0,
{
    if !entry.id.as_str().is_empty() {
        let mut s = "guid:".to_owned();
        s.append(entry.id.as_str());
        proof { reveal_strlit("guid:"); }
        return s;
    }
    let alt = find_alt(&entry.links);
    match (alt, entry.published) {
        (Some(i), Some(ts)) => {
            let mut s = "link:".to_owned();
            s.append(entry.links[i].href.as_str());
            s.append(":");
            s.append(i64_to_dec(ts).as_str());
            proof { reveal_strlit("link:"); }
            return s;
        },
        _ => {},
    }
    match (&entry.title, entry.published) {
        (Some(t), Some(ts)) => {
            let mut s = "titlepub:".to_owned();
            s.append(t.as_str());
            s.append(i64_to_dec(ts).as_str());
            proof { reveal_strlit("titlepub:"); }
            return s;
        },
        _ => {},
    }
    let mut data: Vec<u8> = Vec::new();
    match &entry.title {
        Some(t) => {
            let mut b = t.as_str().as_bytes_vec();
            data.append(&mut b);
        },
        None => {},
    }
    match alt {
        Some(i) => {
            data.push(10u8);
            let mut b = entry.links[i].href.as_str().as_bytes_vec();
            data.append(&mut b);
        },
        None => {},
    }
    match (&entry.summary, entry.published) {
        (Some(sm), Some(_)) => {
            data.push(10u8);
            let mut b = sm.as_str().as_bytes_vec();
            data.append(&mut b);
        },
        _ => {},
    }
    match &entry.content {
        Some(c) => {
            data.push(10u8);
            let mut b = c.as_str().as_bytes_vec();
            data.append(&mut b);
        },
        None => {},
    }
    proof {
        assert(data@ =~= hash_input(*entry));
    }
    let digest = sha1_digest(&data);
    let mut s = "sha1:".to_owned();
    let hex = to_hex(&digest);
    s.append(hex.as_str());
    proof { reveal_strlit("sha1:"); }
    s
}

/// The display title: the entry's title unless absent or blank, else a
/// fixed placeholder.
pub open spec fn spec_entry_title(e: FeedEntry) -> Seq<char> {
    match e.title {
        Some(t) => if all_ws(t@) {
            "[no title]"@
        } else {
            t@
        },
        None => "[no title]"@,
    }
}

/// The title shown in a delivered message.
pub fn entry_title(entry: &FeedEntry) -> (r: String)
    ensures
        r@ == spec_entry_title(*entry),
{
    match &entry.title {
        Some(t) => {
            if !is_blank(t.as_str()) {
                t.clone()
            } else {
                "[no title]".to_owned()
            }
        },
        None => "[no title]".to_owned(),
    }
}

/// The link shown in a delivered message: the alternate link, else the
/// first link, else nothing.
pub open spec fn spec_entry_link(e: FeedEntry) -> Seq<char> {
    match alt_href(e.links@) {
        Some(h) => h,
        None => if e.links@.len() > 0 {
            e.links@[0].href@
        } else {
            Seq::<char>::empty()
        },
    }
}

/// The link shown in a delivered message.
pub fn entry_link(entry: &FeedEntry) -> (r: String)
    ensures
        r@ == spec_entry_link(*entry),
{
    match find_alt(&entry.links) {
        Some(i) => entry.links[i].href.clone(),
        None => {
            if entry.links.len() > 0 {
                entry.links[0].href.clone()
            } else {
                String::new()
            }
        },
    }
}

/// Law: the identity depends on the entry alone; equal entries resolve to
/// the same identity.
pub proof fn lemma_identity_stable(a: FeedEntry, b: FeedEntry)
    requires
        a == b,
    ensures
        spec_entry_id(a) == spec_entry_id(b),
{
}

/// Law: an entry carrying a non-empty upstream id resolves through that id,
/// whatever other fields are present.
pub proof fn lemma_identity_priority(e: FeedEntry)
    requires
        e.id@.len() > 0,
    ensures
        spec_entry_id(e) == "guid:"@ + e.id@,
{
}

} // verus!
