//! Snapshot codec for the dedup store: a compact JSON-shaped byte format,
//! one object under a fixed key mapping each feed URL to its identity list.
//! The encoder is deterministic; the decoder is strict and accepts exactly
//! the encoder's output, which gives an exact round trip.

use vstd::prelude::*;

verus! {

use vstd::utf8::{
    encode_utf8, decode_utf8, valid_utf8, encode_utf8_valid_utf8, encode_utf8_decode_utf8,
};
use crate::dedup::{DedupState, FeedRecord, PairsView, keys_unique};

/// One byte of string content, escaped: quote and backslash get a
/// backslash; every other byte stands for itself.
pub open spec fn esc_byte(b: u8) -> Seq<u8> {
    if b == 34 || b == 92 {
        seq![92u8, b]
    } else {
        seq![b]
    }
}

/// A whole string body, escaped byte by byte.
pub open spec fn esc_bytes(s: Seq<u8>) -> Seq<u8>
    decreases s.len(),
{
    if s.len() == 0 {
        Seq::<u8>::empty()
    } else {
        esc_byte(s[0]) + esc_bytes(s.drop_first())
    }
}

/// A quoted string: quote, escaped UTF-8 body, quote.
pub open spec fn enc_str(s: Seq<char>) -> Seq<u8> {
    seq![34u8] + esc_bytes(encode_utf8(s)) + seq![34u8]
}

/// The tail of an identity list: for each further identity a comma and the
/// string, then the closing bracket.
pub open spec fn enc_ids_rest(ids: Seq<Seq<char>>) -> Seq<u8>
    decreases ids.len(),
{
    if ids.len() == 0 {
        seq![93u8]
    } else {
        seq![44u8] + enc_str(ids[0]) + enc_ids_rest(ids.drop_first())
    }
}

/// An identity list in brackets.
pub open spec fn enc_ids(ids: Seq<Seq<char>>) -> Seq<u8> {
    if ids.len() == 0 {
        seq![91u8, 93u8]
    } else {
        seq![91u8] + enc_str(ids[0]) + enc_ids_rest(ids.drop_first())
    }
}

/// One feed's pair: quoted URL, colon, identity list.
pub open spec fn enc_pair(p: (Seq<char>, Seq<Seq<char>>)) -> Seq<u8> {
    enc_str(p.0) + seq![58u8] + enc_ids(p.1)
}

/// The tail of the feeds object: for each further pair a comma and the
/// pair, then the closing brace.
pub open spec fn enc_pairs_rest(ps: PairsView) -> Seq<u8>
    decreases ps.len(),
{
    if ps.len() == 0 {
        seq![125u8]
    } else {
        seq![44u8] + enc_pair(ps[0]) + enc_pairs_rest(ps.drop_first())
    }
}

/// The feeds object in braces.
pub open spec fn enc_obj(ps: PairsView) -> Seq<u8> {
    if ps.len() == 0 {
        seq![123u8, 125u8]
    } else {
        seq![123u8] + enc_pair(ps[0]) + enc_pairs_rest(ps.drop_first())
    }
}

/// The whole snapshot: the feeds object under its fixed key.
pub open spec fn enc_state_bytes(ps: PairsView) -> Seq<u8> {
    seq![123u8] + enc_str("seen_per_feed"@) + seq![58u8] + enc_obj(ps) + seq![125u8]
}

proof fn lemma_esc_push(s: Seq<u8>, x: u8)
    ensures
        esc_bytes(s.push(x)) == esc_bytes(s) + esc_byte(x),
    decreases s.len(),
{
    let p = s.push(x);
    if s.len() == 0 {
        assert(p[0] == x);
        assert(p.drop_first() =~= Seq::<u8>::empty());
        assert(esc_bytes(p.drop_first()) == Seq::<u8>::empty());
        assert(esc_bytes(p) == esc_byte(p[0]) + esc_bytes(p.drop_first()));
        assert(esc_bytes(s) == Seq::<u8>::empty());
        assert(esc_bytes(s) + esc_byte(x) =~= esc_byte(x) + Seq::<u8>::empty());
    } else {
        lemma_esc_push(s.drop_first(), x);
        assert(p[0] == s[0]);
        assert(p.drop_first() =~= s.drop_first().push(x));
        assert(esc_bytes(p) == esc_byte(p[0]) + esc_bytes(p.drop_first()));
        assert(esc_bytes(s) == esc_byte(s[0]) + esc_bytes(s.drop_first()));
        assert(esc_byte(s[0]) + (esc_bytes(s.drop_first()) + esc_byte(x)) =~= (esc_byte(s[0])
            + esc_bytes(s.drop_first())) + esc_byte(x));
    }
}

/// Appends the quoted, escaped form of `s`.
fn encode_string(out: &mut Vec<u8>, s: &str)
    ensures
        final(out)@ == old(out)@ + enc_str(s@),
{
    let ghost pre = old(out)@;
    out.push(34);
    let bytes = s.as_bytes();
    let n = bytes.len();
    let mut i: usize = 0;
    proof {
        assert(bytes@.take(0) =~= Seq::<u8>::empty());
        assert(out@ =~= pre + seq![34u8] + esc_bytes(bytes@.take(0)));
    }
    while i < n
        invariant
            n == bytes@.len(),
            i <= n,
            bytes@ == encode_utf8(s@),
            out@ == pre + seq![34u8] + esc_bytes(bytes@.take(i as int)),
        decreases n - i,
    {
        let x = bytes[i];
        if x == 34 || x == 92 {
            out.push(92);
            out.push(x);
        } else {
            out.push(x);
        }
        proof {
            lemma_esc_push(bytes@.take(i as int), x);
            assert(bytes@.take(i as int).push(x) =~= bytes@.take(i as int + 1));
            assert(out@ =~= pre + seq![34u8] + esc_bytes(bytes@.take(i as int + 1)));
        }
        i += 1;
    }
    out.push(34);
    proof {
        assert(bytes@.take(n as int) =~= bytes@);
        assert(out@ =~= pre + enc_str(s@));
    }
}

/// Appends the bracketed identity list.
fn encode_ids(out: &mut Vec<u8>, ids: &Vec<String>)
    ensures
        final(out)@ == old(out)@ + enc_ids(ids.deep_view()),
{
    let ghost pre = old(out)@;
    let ghost dv = ids.deep_view();
    out.push(91);
    let n = ids.len();
    if n == 0 {
        out.push(93);
        proof {
            assert(out@ =~= pre + enc_ids(dv));
        }
        return;
    }
    encode_string(out, ids[0].as_str());
    let mut j: usize = 1;
    proof {
        assert(dv.skip(1) =~= dv.drop_first());
        assert(pre + enc_ids(dv) =~= out@ + enc_ids_rest(dv.skip(1)));
    }
    while j < n
        invariant
            n == ids@.len(),
            1 <= j <= n,
            dv == ids.deep_view(),
            n == dv.len(),
            pre + enc_ids(dv) == out@ + enc_ids_rest(dv.skip(j as int)),
        decreases n - j,
    {
        let ghost mid = out@;
        out.push(44);
        encode_string(out, ids[j].as_str());
        proof {
            assert(dv.skip(j as int)[0] == dv[j as int]);
            assert(dv.skip(j as int).drop_first() =~= dv.skip(j as int + 1));
            assert(enc_ids_rest(dv.skip(j as int)) == seq![44u8] + enc_str(dv[j as int])
                + enc_ids_rest(dv.skip(j as int + 1)));
            assert(out@ =~= mid + seq![44u8] + enc_str(dv[j as int]));
            assert(pre + enc_ids(dv) =~= out@ + enc_ids_rest(dv.skip(j as int + 1)));
        }
        j += 1;
    }
    out.push(93);
    proof {
        assert(dv.skip(n as int).len() == 0);
        assert(enc_ids_rest(dv.skip(n as int)) == seq![93u8]);
        assert(out@ =~= pre + enc_ids(dv));
    }
}

/// Appends one feed's pair.
fn encode_pair(out: &mut Vec<u8>, rec: &FeedRecord)
    ensures
        final(out)@ == old(out)@ + enc_pair((rec.url@, rec.ids.deep_view())),
{
    let ghost pre = old(out)@;
    encode_string(out, rec.url.as_str());
    out.push(58);
    encode_ids(out, &rec.ids);
    proof {
        assert(out@ =~= pre + enc_pair((rec.url@, rec.ids.deep_view())));
    }
}

/// Encodes the whole store as snapshot bytes.
pub fn encode_state(st: &DedupState) -> (r: Vec<u8>)
    ensures
        r@ == enc_state_bytes(st.pairs()),
{
    let ghost ps = st.pairs();
    let mut out: Vec<u8> = Vec::new();
    out.push(123);
    encode_string(&mut out, "seen_per_feed");
    out.push(58);
    out.push(123);
    let n = st.feeds.len();
    let ghost head = seq![123u8] + enc_str("seen_per_feed"@) + seq![58u8];
    if n == 0 {
        out.push(125);
        out.push(125);
        proof {
            assert(ps.len() == 0);
            assert(out@ =~= enc_state_bytes(ps));
        }
        return out;
    }
    encode_pair(&mut out, &st.feeds[0]);
    proof {
        assert(ps[0] == (st.feeds@[0].url@, st.feeds@[0].ids.deep_view()));
    }
    let mut j: usize = 1;
    proof {
        assert(ps.skip(1) =~= ps.drop_first());
        assert(head + enc_obj(ps) =~= out@ + enc_pairs_rest(ps.skip(1)));
    }
    while j < n
        invariant
            n == st.feeds@.len(),
            1 <= j <= n,
            ps == st.pairs(),
            n == ps.len(),
            head == seq![123u8] + enc_str("seen_per_feed"@) + seq![58u8],
            head + enc_obj(ps) == out@ + enc_pairs_rest(ps.skip(j as int)),
        decreases n - j,
    {
        let ghost mid = out@;
        out.push(44);
        encode_pair(&mut out, &st.feeds[j]);
        proof {
            assert(ps[j as int] == (st.feeds@[j as int].url@, st.feeds@[j as int].ids.deep_view()));
            assert(ps.skip(j as int)[0] == ps[j as int]);
            assert(ps.skip(j as int).drop_first() =~= ps.skip(j as int + 1));
            assert(enc_pairs_rest(ps.skip(j as int)) == seq![44u8] + enc_pair(ps[j as int])
                + enc_pairs_rest(ps.skip(j as int + 1)));
            assert(out@ =~= mid + seq![44u8] + enc_pair(ps[j as int]));
            assert(head + enc_obj(ps) =~= out@ + enc_pairs_rest(ps.skip(j as int + 1)));
        }
        j += 1;
    }
    out.push(125);
    out.push(125);
    proof {
        assert(ps.skip(n as int).len() == 0);
        assert(enc_pairs_rest(ps.skip(n as int)) == seq![125u8]);
        assert(out@ =~= enc_state_bytes(ps));
    }
    out
}

/// Parses string content from `i` up to the closing quote, unescaping;
/// yields the raw bytes and the position after the quote.
pub open spec fn ps_content(b: Seq<u8>, i: int) -> Option<(Seq<u8>, int)>
    decreases b.len() - i,
{
    if i < 0 || i >= b.len() {
        None
    } else if b[i] == 34 {
        Some((Seq::<u8>::empty(), i + 1))
    } else if b[i] == 92 {
        if i + 2 <= b.len() {
            match ps_content(b, i + 2) {
                None => None,
                Some((s, j)) => Some((seq![b[i + 1]] + s, j)),
            }
        } else {
            None
        }
    } else {
        match ps_content(b, i + 1) {
            None => None,
            Some((s, j)) => Some((seq![b[i]] + s, j)),
        }
    }
}

/// Parses a quoted string at `i`: its characters and the position after.
pub open spec fn ps_string(b: Seq<u8>, i: int) -> Option<(Seq<char>, int)> {
    if 0 <= i < b.len() && b[i] == 34 {
        match ps_content(b, i + 1) {
            None => None,
            Some((raw, j)) => if valid_utf8(raw) {
                Some((decode_utf8(raw), j))
            } else {
                None
            },
        }
    } else {
        None
    }
}

/// Parses the tail of an identity list: comma-separated strings up to the
/// closing bracket.
pub open spec fn ps_more_ids(b: Seq<u8>, i: int) -> Option<(Seq<Seq<char>>, int)>
    decreases b.len() - i,
{
    if i < 0 || i >= b.len() {
        None
    } else if b[i] == 93 {
        Some((Seq::<Seq<char>>::empty(), i + 1))
    } else if b[i] == 44 {
        match ps_string(b, i + 1) {
            None => None,
            Some((s, j)) => if i + 1 < j && j <= b.len() {
                match ps_more_ids(b, j) {
                    None => None,
                    Some((rest, k)) => Some((seq![s] + rest, k)),
                }
            } else {
                None
            },
        }
    } else {
        None
    }
}

/// Parses a bracketed identity list at `i`.
pub open spec fn ps_ids(b: Seq<u8>, i: int) -> Option<(Seq<Seq<char>>, int)> {
    if 0 <= i < b.len() && b[i] == 91 {
        if i + 1 < b.len() && b[i + 1] == 93 {
            Some((Seq::<Seq<char>>::empty(), i + 2))
        } else {
            match ps_string(b, i + 1) {
                None => None,
                Some((s, j)) => match ps_more_ids(b, j) {
                    None => None,
                    Some((rest, k)) => Some((seq![s] + rest, k)),
                },
            }
        }
    } else {
        None
    }
}

/// Parses one feed's pair at `i`: quoted URL, colon, identity list.
pub open spec fn ps_pair(b: Seq<u8>, i: int) -> Option<((Seq<char>, Seq<Seq<char>>), int)> {
    match ps_string(b, i) {
        None => None,
        Some((key, j)) => if j < b.len() && b[j] == 58 {
            match ps_ids(b, j + 1) {
                None => None,
                Some((ids, k)) => Some(((key, ids), k)),
            }
        } else {
            None
        },
    }
}

/// Parses the tail of the feeds object: comma-separated pairs up to the
/// closing brace.
pub open spec fn ps_more_pairs(b: Seq<u8>, i: int) -> Option<(PairsView, int)>
    decreases b.len() - i,
{
    if i < 0 || i >= b.len() {
        None
    } else if b[i] == 125 {
        Some((Seq::<(Seq<char>, Seq<Seq<char>>)>::empty(), i + 1))
    } else if b[i] == 44 {
        match ps_pair(b, i + 1) {
            None => None,
            Some((p, j)) => if i + 1 < j && j <= b.len() {
                match ps_more_pairs(b, j) {
                    None => None,
                    Some((rest, k)) => Some((seq![p] + rest, k)),
                }
            } else {
                None
            },
        }
    } else {
        None
    }
}

/// Parses the braced feeds object at `i`.
pub open spec fn ps_obj(b: Seq<u8>, i: int) -> Option<(PairsView, int)> {
    if 0 <= i < b.len() && b[i] == 123 {
        if i + 1 < b.len() && b[i + 1] == 125 {
            Some((Seq::<(Seq<char>, Seq<Seq<char>>)>::empty(), i + 2))
        } else {
            match ps_pair(b, i + 1) {
                None => None,
                Some((p, j)) => match ps_more_pairs(b, j) {
                    None => None,
                    Some((rest, k)) => Some((seq![p] + rest, k)),
                },
            }
        }
    } else {
        None
    }
}

/// Decodes a whole snapshot; strict: the fixed key, the object, nothing
/// after it, and no feed listed twice.
pub open spec fn dec_state_bytes(b: Seq<u8>) -> Option<PairsView> {
    if b.len() > 0 && b[0] == 123 {
        match ps_string(b, 1) {
            None => None,
            Some((key, j)) => if key == "seen_per_feed"@ && j < b.len() && b[j] == 58 {
                match ps_obj(b, j + 1) {
                    None => None,
                    Some((ps, k)) => if k + 1 == b.len() && b[k] == 125 && keys_unique(ps) {
                        Some(ps)
                    } else {
                        None
                    },
                }
            } else {
                None
            },
        }
    } else {
        None
    }
}

proof fn lemma_ps_content_adv(b: Seq<u8>, i: int)
    requires
        ps_content(b, i) is Some,
    ensures
        i + 1 <= ps_content(b, i)->Some_0.1 <= b.len(),
    decreases b.len() - i,
{
    if b[i] == 34 {
    } else if b[i] == 92 {
        lemma_ps_content_adv(b, i + 2);
    } else {
        lemma_ps_content_adv(b, i + 1);
    }
}

proof fn lemma_ps_string_adv(b: Seq<u8>, i: int)
    requires
        ps_string(b, i) is Some,
    ensures
        i + 2 <= ps_string(b, i)->Some_0.1 <= b.len(),
{
    lemma_ps_content_adv(b, i + 1);
}

proof fn lemma_subrange_sub(b: Seq<u8>, i: int, l1: int, l2: int, w: Seq<u8>)
    requires
        0 <= i,
        0 <= l1,
        0 <= l2,
        l1 + l2 <= w.len(),
        i + w.len() <= b.len(),
        b.subrange(i, i + w.len()) == w,
    ensures
        b.subrange(i + l1, i + l1 + l2) == w.subrange(l1, l1 + l2),
{
    assert forall|m: int| 0 <= m < l2 implies #[trigger] b.subrange(i + l1, i + l1 + l2)[m]
        == w.subrange(l1, l1 + l2)[m] by {
        assert(b.subrange(i, i + w.len() as int)[l1 + m] == w[l1 + m]);
    }
    assert(b.subrange(i + l1, i + l1 + l2) =~= w.subrange(l1, l1 + l2));
}

proof fn lemma_parse_content(b: Seq<u8>, i: int, raw: Seq<u8>)
    requires
        0 <= i,
        i + esc_bytes(raw).len() + 1 <= b.len(),
        b.subrange(i, i + esc_bytes(raw).len() + 1) == esc_bytes(raw) + seq![34u8],
    ensures
        ps_content(b, i) == Some((raw, i + esc_bytes(raw).len() + 1)),
    decreases raw.len(),
{
    let w = esc_bytes(raw) + seq![34u8];
    let n: int = esc_bytes(raw).len() as int;
    if raw.len() == 0 {
        assert(b.subrange(i, i + n + 1)[0] == w[0]);
        assert(b[i] == 34);
        assert(Seq::<u8>::empty() =~= raw);
    } else {
        let r0 = raw[0];
        let rest = raw.drop_first();
        assert(esc_bytes(raw) == esc_byte(r0) + esc_bytes(rest));
        assert(b.subrange(i, i + n + 1)[0] == w[0]);
        assert(w[0] == esc_byte(r0)[0]);
        if r0 == 34 || r0 == 92 {
            assert(b[i] == 92);
            assert(b.subrange(i, i + n + 1)[1] == w[1]);
            assert(w[1] == esc_byte(r0)[1]);
            assert(b[i + 1] == r0);
            lemma_subrange_sub(b, i, 2, n - 1, w);
            assert(w.subrange(2, n + 1) =~= esc_bytes(rest) + seq![34u8]);
            lemma_parse_content(b, i + 2, rest);
            assert(seq![b[i + 1]] + rest =~= raw);
        } else {
            assert(b[i] == r0);
            lemma_subrange_sub(b, i, 1, n, w);
            assert(w.subrange(1, n + 1) =~= esc_bytes(rest) + seq![34u8]);
            lemma_parse_content(b, i + 1, rest);
            assert(seq![b[i]] + rest =~= raw);
        }
    }
}

proof fn lemma_parse_string(b: Seq<u8>, i: int, s: Seq<char>)
    requires
        0 <= i,
        i + enc_str(s).len() <= b.len(),
        b.subrange(i, i + enc_str(s).len()) == enc_str(s),
    ensures
        ps_string(b, i) == Some((s, i + enc_str(s).len())),
        enc_str(s).len() >= 2,
{
    let raw = encode_utf8(s);
    let w = enc_str(s);
    let n: int = esc_bytes(raw).len() as int;
    assert(w.len() == n + 2);
    assert(b.subrange(i, i + w.len())[0] == w[0]);
    assert(b[i] == 34);
    lemma_subrange_sub(b, i, 1, n + 1, w);
    assert(w.subrange(1, n + 2) =~= esc_bytes(raw) + seq![34u8]);
    lemma_parse_content(b, i + 1, raw);
    encode_utf8_valid_utf8(s);
    encode_utf8_decode_utf8(s);
}

proof fn lemma_parse_more_ids(b: Seq<u8>, i: int, ids: Seq<Seq<char>>)
    requires
        0 <= i,
        i + enc_ids_rest(ids).len() <= b.len(),
        b.subrange(i, i + enc_ids_rest(ids).len()) == enc_ids_rest(ids),
    ensures
        ps_more_ids(b, i) == Some((ids, i + enc_ids_rest(ids).len())),
    decreases ids.len(),
{
    let w = enc_ids_rest(ids);
    if ids.len() == 0 {
        assert(b.subrange(i, i + 1)[0] == w[0]);
        assert(b[i] == 93);
        assert(Seq::<Seq<char>>::empty() =~= ids);
    } else {
        let s0 = ids[0];
        let rest = ids.drop_first();
        assert(w == seq![44u8] + enc_str(s0) + enc_ids_rest(rest));
        assert(b.subrange(i, i + w.len())[0] == w[0]);
        assert(b[i] == 44);
        let l1: int = enc_str(s0).len() as int;
        lemma_subrange_sub(b, i, 1, l1, w);
        assert(w.subrange(1, 1 + l1) =~= enc_str(s0));
        lemma_parse_string(b, i + 1, s0);
        let j = i + 1 + l1;
        lemma_subrange_sub(b, i, 1 + l1, enc_ids_rest(rest).len() as int, w);
        assert(w.subrange(1 + l1, w.len() as int) =~= enc_ids_rest(rest));
        lemma_parse_more_ids(b, j, rest);
        assert(seq![s0] + rest =~= ids);
    }
}

proof fn lemma_parse_ids(b: Seq<u8>, i: int, ids: Seq<Seq<char>>)
    requires
        0 <= i,
        i + enc_ids(ids).len() <= b.len(),
        b.subrange(i, i + enc_ids(ids).len()) == enc_ids(ids),
    ensures
        ps_ids(b, i) == Some((ids, i + enc_ids(ids).len())),
{
    let w = enc_ids(ids);
    assert(b.subrange(i, i + w.len())[0] == w[0]);
    assert(b[i] == 91);
    if ids.len() == 0 {
        assert(b.subrange(i, i + 2)[1] == w[1]);
        assert(b[i + 1] == 93);
        assert(Seq::<Seq<char>>::empty() =~= ids);
    } else {
        let s0 = ids[0];
        let rest = ids.drop_first();
        assert(w == seq![91u8] + enc_str(s0) + enc_ids_rest(rest));
        let l1: int = enc_str(s0).len() as int;
        lemma_subrange_sub(b, i, 1, l1, w);
        assert(w.subrange(1, 1 + l1) =~= enc_str(s0));
        lemma_parse_string(b, i + 1, s0);
        assert(b.subrange(i, i + w.len())[1] == w[1]);
        assert(b[i + 1] == 34);
        let j = i + 1 + l1;
        lemma_subrange_sub(b, i, 1 + l1, enc_ids_rest(rest).len() as int, w);
        assert(w.subrange(1 + l1, w.len() as int) =~= enc_ids_rest(rest));
        lemma_parse_more_ids(b, j, rest);
        assert(seq![s0] + rest =~= ids);
    }
}

proof fn lemma_parse_pair(b: Seq<u8>, i: int, p: (Seq<char>, Seq<Seq<char>>))
    requires
        0 <= i,
        i + enc_pair(p).len() <= b.len(),
        b.subrange(i, i + enc_pair(p).len()) == enc_pair(p),
    ensures
        ps_pair(b, i) == Some((p, i + enc_pair(p).len())),
        enc_pair(p).len() >= 2,
{
    let w = enc_pair(p);
    let l1: int = enc_str(p.0).len() as int;
    lemma_subrange_sub(b, i, 0, l1, w);
    assert(w.subrange(0, l1) =~= enc_str(p.0));
    lemma_parse_string(b, i, p.0);
    let j = i + l1;
    assert(b.subrange(i, i + w.len())[l1] == w[l1]);
    assert(b[j] == 58);
    lemma_subrange_sub(b, i, l1 + 1, enc_ids(p.1).len() as int, w);
    assert(w.subrange(l1 + 1, w.len() as int) =~= enc_ids(p.1));
    lemma_parse_ids(b, j + 1, p.1);
}

proof fn lemma_parse_more_pairs(b: Seq<u8>, i: int, ps: PairsView)
    requires
        0 <= i,
        i + enc_pairs_rest(ps).len() <= b.len(),
        b.subrange(i, i + enc_pairs_rest(ps).len()) == enc_pairs_rest(ps),
    ensures
        ps_more_pairs(b, i) == Some((ps, i + enc_pairs_rest(ps).len())),
    decreases ps.len(),
{
    let w = enc_pairs_rest(ps);
    if ps.len() == 0 {
        assert(b.subrange(i, i + 1)[0] == w[0]);
        assert(b[i] == 125);
        assert(Seq::<(Seq<char>, Seq<Seq<char>>)>::empty() =~= ps);
    } else {
        let p0 = ps[0];
        let rest = ps.drop_first();
        assert(w == seq![44u8] + enc_pair(p0) + enc_pairs_rest(rest));
        assert(b.subrange(i, i + w.len())[0] == w[0]);
        assert(b[i] == 44);
        let l1: int = enc_pair(p0).len() as int;
        lemma_subrange_sub(b, i, 1, l1, w);
        assert(w.subrange(1, 1 + l1) =~= enc_pair(p0));
        lemma_parse_pair(b, i + 1, p0);
        let j = i + 1 + l1;
        lemma_subrange_sub(b, i, 1 + l1, enc_pairs_rest(rest).len() as int, w);
        assert(w.subrange(1 + l1, w.len() as int) =~= enc_pairs_rest(rest));
        lemma_parse_more_pairs(b, j, rest);
        assert(seq![p0] + rest =~= ps);
    }
}

proof fn lemma_parse_obj(b: Seq<u8>, i: int, ps: PairsView)
    requires
        0 <= i,
        i + enc_obj(ps).len() <= b.len(),
        b.subrange(i, i + enc_obj(ps).len()) == enc_obj(ps),
    ensures
        ps_obj(b, i) == Some((ps, i + enc_obj(ps).len())),
{
    let w = enc_obj(ps);
    assert(b.subrange(i, i + w.len())[0] == w[0]);
    assert(b[i] == 123);
    if ps.len() == 0 {
        assert(b.subrange(i, i + 2)[1] == w[1]);
        assert(b[i + 1] == 125);
        assert(Seq::<(Seq<char>, Seq<Seq<char>>)>::empty() =~= ps);
    } else {
        let p0 = ps[0];
        let rest = ps.drop_first();
        assert(w == seq![123u8] + enc_pair(p0) + enc_pairs_rest(rest));
        let l1: int = enc_pair(p0).len() as int;
        lemma_subrange_sub(b, i, 1, l1, w);
        assert(w.subrange(1, 1 + l1) =~= enc_pair(p0));
        lemma_parse_pair(b, i + 1, p0);
        assert(b.subrange(i, i + w.len())[1] == w[1]);
        assert(b[i + 1] == 34);
        let j = i + 1 + l1;
        lemma_subrange_sub(b, i, 1 + l1, enc_pairs_rest(rest).len() as int, w);
        assert(w.subrange(1 + l1, w.len() as int) =~= enc_pairs_rest(rest));
        lemma_parse_more_pairs(b, j, rest);
        assert(seq![p0] + rest =~= ps);
    }
}

/// Law: decoding an encoded snapshot recovers exactly the encoded pairs,
/// whatever the store held.
pub proof fn lemma_state_round_trip(ps: PairsView)
    requires
        keys_unique(ps),
    ensures
        dec_state_bytes(enc_state_bytes(ps)) == Some(ps),
{
    let b = enc_state_bytes(ps);
    let k = enc_str("seen_per_feed"@);
    let klen: int = k.len() as int;
    assert(b == seq![123u8] + k + seq![58u8] + enc_obj(ps) + seq![125u8]);
    assert(b[0] == 123);
    assert(b.subrange(1, 1 + klen) =~= k);
    lemma_parse_string(b, 1, "seen_per_feed"@);
    let j: int = 1 + klen;
    assert(b[j] == 58);
    assert(b.subrange(j + 1, j + 1 + enc_obj(ps).len() as int) =~= enc_obj(ps));
    lemma_parse_obj(b, j + 1, ps);
    let m: int = j + 1 + enc_obj(ps).len() as int;
    assert(b[m] == 125);
    assert(m + 1 == b.len());
}

/// Relies on std's `String::from_utf8`: it succeeds exactly on valid UTF-8
/// and then holds exactly the decoded characters.
#[verifier::external_body]
fn string_from_utf8(v: Vec<u8>) -> (r: Option<String>)
    ensures
        r is Some <==> valid_utf8(v@),
        r is Some ==> r->0@ == decode_utf8(v@),
{
    String::from_utf8(v).ok()
}

fn parse_content(b: &Vec<u8>, i: usize) -> (r: Option<(Vec<u8>, usize)>)
    ensures
        match r {
            None => ps_content(b@, i as int) is None,
            Some(p) => ps_content(b@, i as int) == Some((p.0@, p.1 as int)),
        },
    decreases b@.len() - i,
{
    if i >= b.len() {
        return None;
    }
    let c = b[i];
    if c == 34 {
        let v: Vec<u8> = Vec::new();
        proof {
            assert(v@ =~= Seq::<u8>::empty());
        }
        Some((v, i + 1))
    } else if c == 92 {
        if b.len() - i >= 2 {
            match parse_content(b, i + 2) {
                None => None,
                Some((mut s, j)) => {
                    let ghost prev = s@;
                    let x = b[i + 1];
                    s.insert(0, x);
                    proof {
                        assert(s@ =~= seq![x] + prev);
                    }
                    Some((s, j))
                },
            }
        } else {
            None
        }
    } else {
        match parse_content(b, i + 1) {
            None => None,
            Some((mut s, j)) => {
                let ghost prev = s@;
                s.insert(0, c);
                proof {
                    assert(s@ =~= seq![c] + prev);
                }
                Some((s, j))
            },
        }
    }
}

fn parse_string(b: &Vec<u8>, i: usize) -> (r: Option<(String, usize)>)
    ensures
        match r {
            None => ps_string(b@, i as int) is None,
            Some(p) => ps_string(b@, i as int) == Some((p.0@, p.1 as int)),
        },
{
    if i < b.len() && b[i] == 34 {
        match parse_content(b, i + 1) {
            None => None,
            Some((raw, j)) => match string_from_utf8(raw) {
                None => None,
                Some(s) => Some((s, j)),
            },
        }
    } else {
        None
    }
}

fn parse_more_ids(b: &Vec<u8>, i: usize) -> (r: Option<(Vec<String>, usize)>)
    ensures
        match r {
            None => ps_more_ids(b@, i as int) is None,
            Some(p) => ps_more_ids(b@, i as int) == Some((p.0.deep_view(), p.1 as int)),
        },
    decreases b@.len() - i,
{
    if i >= b.len() {
        return None;
    }
    let c = b[i];
    if c == 93 {
        let v: Vec<String> = Vec::new();
        proof {
            assert(v.deep_view() =~= Seq::<Seq<char>>::empty());
        }
        Some((v, i + 1))
    } else if c == 44 {
        match parse_string(b, i + 1) {
            None => None,
            Some((s, j)) => {
                proof {
                    lemma_ps_string_adv(b@, i as int + 1);
                }
                match parse_more_ids(b, j) {
                    None => None,
                    Some((mut rest, k)) => {
                        let ghost prev = rest.deep_view();
                        let ghost sv = s@;
                        rest.insert(0, s);
                        proof {
                            assert(rest.deep_view() =~= seq![sv] + prev);
                        }
                        Some((rest, k))
                    },
                }
            },
        }
    } else {
        None
    }
}

fn parse_ids(b: &Vec<u8>, i: usize) -> (r: Option<(Vec<String>, usize)>)
    ensures
        match r {
            None => ps_ids(b@, i as int) is None,
            Some(p) => ps_ids(b@, i as int) == Some((p.0.deep_view(), p.1 as int)),
        },
{
    if i < b.len() && b[i] == 91 {
        if i + 1 < b.len() && b[i + 1] == 93 {
            let v: Vec<String> = Vec::new();
            proof {
                assert(v.deep_view() =~= Seq::<Seq<char>>::empty());
            }
            Some((v, i + 2))
        } else {
            match parse_string(b, i + 1) {
                None => None,
                Some((s, j)) => match parse_more_ids(b, j) {
                    None => None,
                    Some((mut rest, k)) => {
                        let ghost prev = rest.deep_view();
                        let ghost sv = s@;
                        rest.insert(0, s);
                        proof {
                            assert(rest.deep_view() =~= seq![sv] + prev);
                        }
                        Some((rest, k))
                    },
                },
            }
        }
    } else {
        None
    }
}

fn parse_pair(b: &Vec<u8>, i: usize) -> (r: Option<(FeedRecord, usize)>)
    ensures
        match r {
            None => ps_pair(b@, i as int) is None,
            Some(p) => ps_pair(b@, i as int) == Some(
                ((p.0.url@, p.0.ids.deep_view()), p.1 as int),
            ),
        },
{
    match parse_string(b, i) {
        None => None,
        Some((key, j)) => {
            if j < b.len() && b[j] == 58 {
                match parse_ids(b, j + 1) {
                    None => None,
                    Some((ids, k)) => Some((FeedRecord { url: key, ids }, k)),
                }
            } else {
                None
            }
        },
    }
}

/// The pairs carried by a run of records.
pub open spec fn recs_pairs(rs: Seq<FeedRecord>) -> PairsView {
    Seq::new(rs.len(), |i: int| (rs[i].url@, rs[i].ids.deep_view()))
}

fn parse_more_pairs(b: &Vec<u8>, i: usize) -> (r: Option<(Vec<FeedRecord>, usize)>)
    ensures
        match r {
            None => ps_more_pairs(b@, i as int) is None,
            Some(p) => ps_more_pairs(b@, i as int) == Some((recs_pairs(p.0@), p.1 as int)),
        },
    decreases b@.len() - i,
{
    if i >= b.len() {
        return None;
    }
    let c = b[i];
    if c == 125 {
        let v: Vec<FeedRecord> = Vec::new();
        proof {
            assert(recs_pairs(v@) =~= Seq::<(Seq<char>, Seq<Seq<char>>)>::empty());
        }
        Some((v, i + 1))
    } else if c == 44 {
        match parse_pair(b, i + 1) {
            None => None,
            Some((rec, j)) => {
                proof {
                    lemma_ps_pair_adv(b@, i as int + 1);
                }
                match parse_more_pairs(b, j) {
                    None => None,
                    Some((mut rest, k)) => {
                        let ghost prev = recs_pairs(rest@);
                        let ghost rv = (rec.url@, rec.ids.deep_view());
                        rest.insert(0, rec);
                        proof {
                            assert(recs_pairs(rest@) =~~= seq![rv] + prev);
                        }
                        Some((rest, k))
                    },
                }
            },
        }
    } else {
        None
    }
}

fn parse_obj(b: &Vec<u8>, i: usize) -> (r: Option<(Vec<FeedRecord>, usize)>)
    ensures
        match r {
            None => ps_obj(b@, i as int) is None,
            Some(p) => ps_obj(b@, i as int) == Some((recs_pairs(p.0@), p.1 as int)),
        },
{
    if i < b.len() && b[i] == 123 {
        if i + 1 < b.len() && b[i + 1] == 125 {
            let v: Vec<FeedRecord> = Vec::new();
            proof {
                assert(recs_pairs(v@) =~= Seq::<(Seq<char>, Seq<Seq<char>>)>::empty());
            }
            Some((v, i + 2))
        } else {
            match parse_pair(b, i + 1) {
                None => None,
                Some((rec, j)) => match parse_more_pairs(b, j) {
                    None => None,
                    Some((mut rest, k)) => {
                        let ghost prev = recs_pairs(rest@);
                        let ghost rv = (rec.url@, rec.ids.deep_view());
                        rest.insert(0, rec);
                        proof {
                            assert(recs_pairs(rest@) =~~= seq![rv] + prev);
                        }
                        Some((rest, k))
                    },
                },
            }
        }
    } else {
        None
    }
}

proof fn lemma_ps_pair_adv(b: Seq<u8>, i: int)
    requires
        ps_pair(b, i) is Some,
    ensures
        i + 1 <= ps_pair(b, i)->Some_0.1 <= b.len(),
{
    lemma_ps_string_adv(b, i);
    let j = ps_string(b, i)->Some_0.1;
    let ids = ps_ids(b, j + 1);
    assert(ids is Some);
    if j + 1 < b.len() && b[j + 1] == 91 {
        if j + 2 < b.len() && b[j + 2] == 93 {
        } else {
            lemma_ps_string_adv(b, j + 2);
            lemma_ps_more_ids_adv(b, ps_string(b, j + 2)->Some_0.1);
        }
    }
}

proof fn lemma_ps_more_ids_adv(b: Seq<u8>, i: int)
    requires
        ps_more_ids(b, i) is Some,
    ensures
        i + 1 <= ps_more_ids(b, i)->Some_0.1 <= b.len(),
    decreases b.len() - i,
{
    if b[i] == 93 {
    } else {
        lemma_ps_string_adv(b, i + 1);
        lemma_ps_more_ids_adv(b, ps_string(b, i + 1)->Some_0.1);
    }
}

fn keys_ok(st: &DedupState) -> (r: bool)
    ensures
        r == keys_unique(st.pairs()),
{
    let ghost ps = st.pairs();
    let n = st.feeds.len();
    let mut i: usize = 1;
    while i < n
        invariant
            n == st.feeds@.len(),
            ps == st.pairs(),
            1 <= i,
            i <= n || n == 0,
            forall|a: int, b: int| 0 <= a < b < i && b < n ==> ps[a].0 != ps[b].0,
        decreases n - i,
    {
        let mut j: usize = 0;
        while j < i
            invariant
                n == st.feeds@.len(),
                ps == st.pairs(),
                i < n,
                j <= i,
                forall|a: int| 0 <= a < j ==> ps[a].0 != ps[i as int].0,
            decreases i - j,
        {
            if crate::strutil::str_eq(st.feeds[j].url.as_str(), st.feeds[i].url.as_str()) {
                proof {
                    assert(ps[j as int].0 == ps[i as int].0);
                }
                return false;
            }
            j += 1;
        }
        i += 1;
    }
    true
}

/// Decodes snapshot bytes; yields nothing unless the bytes are exactly an
/// encoded snapshot with no feed listed twice.
pub fn decode_state(b: &Vec<u8>) -> (r: Option<DedupState>)
    ensures
        match r {
            None => dec_state_bytes(b@) is None,
            Some(st) => st.wf() && dec_state_bytes(b@) == Some(st.pairs()),
        },
{
    if b.len() == 0 {
        return None;
    }
    if b[0] != 123 {
        return None;
    }
    match parse_string(b, 1) {
        None => None,
        Some((key, j)) => {
            if !crate::strutil::str_eq(key.as_str(), "seen_per_feed") {
                return None;
            }
            if !(j < b.len()) {
                return None;
            }
            if b[j] != 58 {
                return None;
            }
            match parse_obj(b, j + 1) {
                None => None,
                Some((recs, k)) => {
                    if !(k < b.len()) {
                        return None;
                    }
                    if b[k] != 125 {
                        return None;
                    }
                    if k + 1 != b.len() {
                        return None;
                    }
                    let st = DedupState { feeds: recs };
                    proof {
                        assert(st.pairs() =~~= recs_pairs(st.feeds@));
                    }
                    if !keys_ok(&st) {
                        return None;
                    }
                    Some(st)
                },
            }
        },
    }
}

/// Why loading failed: a snapshot exists but cannot be decoded.
pub enum LoadError {
    Corrupt,
}

/// Builds the starting store from an optional snapshot: no snapshot means an
/// empty store; an undecodable snapshot is an error, never silently dropped.
pub fn load_state(content: Option<&Vec<u8>>) -> (r: Result<DedupState, LoadError>)
    ensures
        match content {
            None => r is Ok && r->Ok_0.pairs() == Seq::<(Seq<char>, Seq<Seq<char>>)>::empty()
                && r->Ok_0.wf(),
            Some(bytes) => match dec_state_bytes(bytes@) {
                Some(ps) => r is Ok && r->Ok_0.pairs() == ps && r->Ok_0.wf(),
                None => r is Err,
            },
        },
{
    match content {
        None => Ok(DedupState::new()),
        Some(bytes) => match decode_state(bytes) {
            Some(st) => Ok(st),
            None => Err(LoadError::Corrupt),
        },
    }
}

} // verus!
