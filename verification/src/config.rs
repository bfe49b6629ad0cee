//! Runtime configuration: parsing and validation of the plain values the
//! process is started with. The values themselves are read from the
//! environment by the caller; everything that decides whether they are
//! acceptable lives here.

use vstd::prelude::*;

verus! {

use crate::strutil::{is_ws, is_ws_char, str_eq};

/// The validated runtime configuration.
pub struct Config {
    pub token: String,
    pub chat_id: i64,
    pub feeds: Vec<String>,
    pub dedup_limit: usize,
    pub poll_every_minutes: u64,
    pub state_file: String,
}

/// A fatal startup error: the configuration cannot be used.
pub enum ConfigError {
    /// The destination chat id is not a valid signed integer.
    BadChatId,
    /// A feed entry neither parses as a URL nor carries an accepted scheme;
    /// the offending entry is carried along.
    BadFeed(String),
    /// The feed list holds no usable entry at all.
    NoFeeds,
}

/// Leading whitespace dropped.
pub open spec fn trim_front(s: Seq<char>) -> Seq<char>
    decreases s.len(),
{
    if s.len() > 0 && is_ws_char(s[0]) {
        trim_front(s.drop_first())
    } else {
        s
    }
}

/// Trailing whitespace dropped.
pub open spec fn trim_back(s: Seq<char>) -> Seq<char>
    decreases s.len(),
{
    if s.len() > 0 && is_ws_char(s.last()) {
        trim_back(s.drop_last())
    } else {
        s
    }
}

/// Whitespace dropped on both ends.
pub open spec fn trim_of(s: Seq<char>) -> Seq<char> {
    trim_back(trim_front(s))
}

/// The trimmed text with one pair of matching surrounding quotes (double or
/// single) removed, when it has one.
pub open spec fn dequote_of(s: Seq<char>) -> Seq<char> {
    let t = trim_of(s);
    if t.len() >= 2 && ((t[0] == '"' && t.last() == '"') || (t[0] == '\'' && t.last() == '\'')) {
        t.subrange(1, t.len() - 1)
    } else {
        t
    }
}

proof fn lemma_trim_front_at(s: Seq<char>, a: int)
    requires
        0 <= a <= s.len(),
        forall|j: int| 0 <= j < a ==> is_ws_char(#[trigger] s[j]),
        a == s.len() || !is_ws_char(s[a]),
    ensures
        trim_front(s) == s.skip(a),
    decreases a,
{
    if a == 0 {
        assert(s.skip(0) =~= s);
    } else {
        assert(is_ws_char(s[0]));
        lemma_trim_front_at(s.drop_first(), a - 1);
        assert(s.drop_first().skip(a - 1) =~= s.skip(a));
    }
}

proof fn lemma_trim_back_at(s: Seq<char>, b: int)
    requires
        0 <= b <= s.len(),
        forall|j: int| b <= j < s.len() ==> is_ws_char(#[trigger] s[j]),
        b == 0 || !is_ws_char(s[b - 1]),
    ensures
        trim_back(s) == s.take(b),
    decreases s.len() - b,
{
    if b == s.len() {
        if s.len() > 0 && is_ws_char(s.last()) {
            assert(!is_ws_char(s[b - 1]));
            assert(false);
        }
        assert(s.take(b) =~= s);
    } else {
        assert(is_ws_char(s.last()));
        lemma_trim_back_at(s.drop_last(), b);
        assert(s.drop_last().take(b) =~= s.take(b));
    }
}

/// Drops whitespace from both ends.
pub fn trim(s: &str) -> (r: &str)
    ensures
        r@ == trim_of(s@),
{
    let n = s.unicode_len();
    let mut a: usize = 0;
    while a < n && is_ws(s.get_char(a))
        invariant
            a <= n,
            n == s@.len(),
            forall|j: int| 0 <= j < a ==> is_ws_char(#[trigger] s@[j]),
        decreases n - a,
    {
        a += 1;
    }
    proof {
        lemma_trim_front_at(s@, a as int);
    }
    let mut b: usize = n;
    while b > a && is_ws(s.get_char(b - 1))
        invariant
            a <= b <= n,
            n == s@.len(),
            forall|j: int| b <= j < n ==> is_ws_char(#[trigger] s@[j]),
        decreases b,
    {
        b -= 1;
    }
    proof {
        let t = s@.skip(a as int);
        assert forall|j: int| b - a <= j < t.len() implies is_ws_char(#[trigger] t[j]) by {
            assert(t[j] == s@[a + j]);
        }
        if b > a {
            assert(t[b - a - 1] == s@[b - 1]);
        } else {
            assert(a == b);
            if a < n {
                assert(!is_ws_char(s@[a as int]));
                assert(is_ws_char(s@[a as int]));
            }
        }
        lemma_trim_back_at(t, b - a);
        assert(t.take(b - a) =~= s@.subrange(a as int, b as int));
    }
    s.substring_char(a, b)
}

/// Trims, then strips one pair of matching surrounding quotes if present.
/// A lone quote character stays as it is.
pub fn dequote(s: &str) -> (r: &str)
    ensures
        r@ == dequote_of(s@),
{
    let t = trim(s);
    let n = t.unicode_len();
    if n >= 2 {
        let f = t.get_char(0);
        let l = t.get_char(n - 1);
        if (f == '"' && l == '"') || (f == '\'' && l == '\'') {
            return t.substring_char(1, n - 1);
        }
    }
    t
}

/// A decimal digit.
pub open spec fn is_digit(c: char) -> bool {
    48 <= c as u32 <= 57
}

/// Its value.
pub open spec fn digit_val(c: char) -> nat {
    (c as u32 - 48) as nat
}

/// Every character is a decimal digit.
pub open spec fn all_digits(s: Seq<char>) -> bool {
    forall|i: int| 0 <= i < s.len() ==> is_digit(#[trigger] s[i])
}

/// The value of a digit string, most significant digit first.
pub open spec fn digits_val(s: Seq<char>) -> nat
    decreases s.len(),
{
    if s.len() == 0 {
        0
    } else {
        digits_val(s.drop_last()) * 10 + digit_val(s.last())
    }
}

proof fn lemma_digits_prefix(p: Seq<char>, r: Seq<char>)
    ensures
        digits_val(p) <= digits_val(p + r),
    decreases r.len(),
{
    if r.len() == 0 {
        assert(p + r =~= p);
    } else {
        lemma_digits_prefix(p, r.drop_last());
        assert((p + r).drop_last() =~= p + r.drop_last());
        assert(digits_val(p + r) == digits_val(p + r.drop_last()) * 10 + digit_val((p + r).last()));
    }
}

/// Parses an unsigned decimal numeral: every character a digit, the value
/// within range; anything else is rejected.
pub fn parse_u64(s: &str) -> (r: Option<u64>)
    ensures
        r is Some <==> (s@.len() > 0 && all_digits(s@) && digits_val(s@) <= u64::MAX),
        r is Some ==> r->0 as nat == digits_val(s@),
{
    let n = s.unicode_len();
    if n == 0 {
        return None;
    }
    let mut v: u64 = 0;
    let mut i: usize = 0;
    proof {
        assert(s@.take(0) =~= Seq::<char>::empty());
    }
    while i < n
        invariant
            i <= n,
            n == s@.len(),
            forall|j: int| 0 <= j < i ==> is_digit(#[trigger] s@[j]),
            v as nat == digits_val(s@.take(i as int)),
        decreases n - i,
    {
        let c = s.get_char(i);
        let cv = c as u32;
        if cv < 48 || cv > 57 {
            return None;
        }
        let d = (cv - 48) as u64;
        proof {
            assert(s@.take(i as int + 1).drop_last() =~= s@.take(i as int));
            assert(s@.take(i as int + 1).last() == s@[i as int]);
        }
        match v.checked_mul(10) {
            None => {
                proof {
                    lemma_digits_prefix(s@.take(i as int + 1), s@.skip(i as int + 1));
                    assert(s@.take(i as int + 1) + s@.skip(i as int + 1) =~= s@);
                }
                return None;
            },
            Some(v10) => {
                match v10.checked_add(d) {
                    None => {
                        proof {
                            lemma_digits_prefix(s@.take(i as int + 1), s@.skip(i as int + 1));
                            assert(s@.take(i as int + 1) + s@.skip(i as int + 1) =~= s@);
                        }
                        return None;
                    },
                    Some(w) => {
                        v = w;
                    },
                }
            },
        }
        i += 1;
    }
    proof {
        assert(s@.take(n as int) =~= s@);
    }
    Some(v)
}

/// The signed value of a numeral with an optional leading minus sign.
pub open spec fn i64_val(s: Seq<char>) -> int {
    if s.len() > 0 && s[0] == '-' {
        -(digits_val(s.drop_first()) as int)
    } else {
        digits_val(s) as int
    }
}

/// Whether a numeral denotes a value an `i64` can hold.
pub open spec fn valid_i64_str(s: Seq<char>) -> bool {
    if s.len() > 0 && s[0] == '-' {
        s.len() > 1 && all_digits(s.drop_first()) && digits_val(s.drop_first()) <= 0x8000000000000000
    } else {
        s.len() > 0 && all_digits(s) && digits_val(s) <= i64::MAX
    }
}

/// Parses a signed decimal numeral: optional minus sign, then digits.
pub fn parse_i64(s: &str) -> (r: Option<i64>)
    ensures
        r is Some <==> valid_i64_str(s@),
        r is Some ==> r->0 as int == i64_val(s@),
{
    let n = s.unicode_len();
    if n == 0 {
        return None;
    }
    if s.get_char(0) == '-' {
        let rest = s.substring_char(1, n);
        proof {
            assert(rest@ =~= s@.drop_first());
        }
        match parse_u64(rest) {
            None => None,
            Some(mag) => {
                if mag > 9223372036854775808u64 {
                    None
                } else if mag == 9223372036854775808u64 {
                    Some(i64::MIN)
                } else {
                    Some(-(mag as i64))
                }
            },
        }
    } else {
        match parse_u64(s) {
            None => None,
            Some(v) => {
                if v <= i64::MAX as u64 {
                    Some(v as i64)
                } else {
                    None
                }
            },
        }
    }
}

/// A character separating feed entries: comma, semicolon, or whitespace of
/// any kind (newlines included).
pub open spec fn is_sep_char(c: char) -> bool {
    c == ',' || c == ';' || is_ws_char(c)
}

fn is_sep(c: char) -> (r: bool)
    ensures
        r == is_sep_char(c),
{
    c == ',' || c == ';' || is_ws(c)
}

/// The maximal separator-free runs of `s` from position `i` on, with `cur`
/// the run in progress.
pub open spec fn tokens_from(s: Seq<char>, i: int, cur: Seq<char>) -> Seq<Seq<char>>
    decreases s.len() - i,
{
    if i < 0 || i >= s.len() {
        if cur.len() > 0 {
            seq![cur]
        } else {
            Seq::<Seq<char>>::empty()
        }
    } else if is_sep_char(s[i]) {
        if cur.len() > 0 {
            seq![cur] + tokens_from(s, i + 1, Seq::<char>::empty())
        } else {
            tokens_from(s, i + 1, Seq::<char>::empty())
        }
    } else {
        tokens_from(s, i + 1, cur.push(s[i]))
    }
}

/// The separator-delimited entries of a feed list.
pub open spec fn spec_tokens(s: Seq<char>) -> Seq<Seq<char>> {
    tokens_from(s, 0, Seq::<char>::empty())
}

/// Splits a feed list into its entries.
pub fn split_tokens(s: &str) -> (r: Vec<String>)
    ensures
        r.deep_view() == spec_tokens(s@),
{
    let n = s.unicode_len();
    let mut out: Vec<String> = Vec::new();
    let mut start: Option<usize> = None;
    let mut i: usize = 0;
    proof {
        assert(out.deep_view() =~= Seq::<Seq<char>>::empty());
    }
    while i < n
        invariant
            i <= n,
            n == s@.len(),
            match start {
                None => spec_tokens(s@) == out.deep_view() + tokens_from(
                    s@,
                    i as int,
                    Seq::<char>::empty(),
                ),
                Some(st) => st < i && spec_tokens(s@) == out.deep_view() + tokens_from(
                    s@,
                    i as int,
                    s@.subrange(st as int, i as int),
                ),
            },
        decreases n - i,
    {
        let c = s.get_char(i);
        if is_sep(c) {
            match start {
                Some(st) => {
                    let tok = s.substring_char(st, i).to_owned();
                    let ghost prev = out.deep_view();
                    let ghost cur = s@.subrange(st as int, i as int);
                    out.push(tok);
                    proof {
                        assert(out.deep_view() =~= prev.push(cur));
                        assert(cur.len() > 0);
                        assert(prev.push(cur) =~= prev + seq![cur]);
                        assert((prev + seq![cur]) + tokens_from(s@, i as int + 1, Seq::<char>::empty())
                            =~= prev + (seq![cur] + tokens_from(s@, i as int + 1, Seq::<char>::empty())));
                    }
                    start = None;
                },
                None => {},
            }
        } else {
            match start {
                Some(st) => {
                    proof {
                        assert(s@.subrange(st as int, i as int).push(s@[i as int]) =~= s@.subrange(
                            st as int,
                            i as int + 1,
                        ));
                    }
                },
                None => {
                    start = Some(i);
                    proof {
                        assert(Seq::<char>::empty().push(s@[i as int]) =~= s@.subrange(
                            i as int,
                            i as int + 1,
                        ));
                    }
                },
            }
        }
        i += 1;
    }
    match start {
        Some(st) => {
            let tok = s.substring_char(st, n).to_owned();
            let ghost prev = out.deep_view();
            let ghost cur = s@.subrange(st as int, n as int);
            out.push(tok);
            proof {
                assert(cur.len() > 0);
                assert(out.deep_view() =~= prev.push(cur));
                assert(prev.push(cur) =~= prev + seq![cur]);
            }
        },
        None => {
            proof {
                assert(out.deep_view() + Seq::<Seq<char>>::empty() =~= out.deep_view());
            }
        },
    }
    out
}

/// What url's `Url::parse` yields for a given string, a function of the
/// string alone: the scheme and the canonical serialization.
pub uninterp spec fn url_parse_of(s: Seq<char>) -> Option<(Seq<char>, Seq<char>)>;

/// Relies on url's `Url::parse`, and on `scheme` and `as_str` of the parsed
/// value: parsing is deterministic in the input string, `scheme` is the
/// parsed scheme and `as_str` the canonical serialization.
#[verifier::external_body]
fn parse_url(s: &str) -> (r: Option<(String, String)>)
    ensures
        r is Some <==> url_parse_of(s@) is Some,
        r is Some ==> ({
            let p = r->0;
            let q = url_parse_of(s@)->0;
            p.0@ == q.0 && p.1@ == q.1
        }),
{
    match url::Url::parse(s) {
        Ok(u) => {
            let scheme = u.scheme().to_owned();
            let canon = u.as_str().to_owned();
            Some((scheme, canon))
        },
        Err(_) => None,
    }
}

/// The canonical URLs of the entries, blanks skipped, when every remaining
/// entry parses and carries an accepted scheme.
pub open spec fn feeds_of(ts: Seq<Seq<char>>) -> Option<Seq<Seq<char>>>
    decreases ts.len(),
{
    if ts.len() == 0 {
        Some(Seq::<Seq<char>>::empty())
    } else {
        let c = dequote_of(ts[0]);
        if c.len() == 0 {
            feeds_of(ts.drop_first())
        } else {
            match url_parse_of(c) {
                None => None,
                Some(p) => if p.0 == "http"@ || p.0 == "https"@ {
                    match feeds_of(ts.drop_first()) {
                        None => None,
                        Some(rest) => Some(seq![p.1] + rest),
                    }
                } else {
                    None
                },
            }
        }
    }
}

/// The window size used when the configured one is absent or unusable.
pub open spec fn spec_limit(o: Option<Seq<char>>) -> nat {
    match o {
        None => 200,
        Some(s) => if s.len() > 0 && all_digits(s) && digits_val(s) <= usize::MAX {
            digits_val(s)
        } else {
            200
        },
    }
}

/// The poll interval used when the configured one is absent or unusable.
pub open spec fn spec_poll(o: Option<Seq<char>>) -> nat {
    match o {
        None => 5,
        Some(s) => if s.len() > 0 && all_digits(s) && digits_val(s) <= u64::MAX {
            digits_val(s)
        } else {
            5
        },
    }
}

impl Config {
    /// Validates the raw configuration values: the chat id must be a signed
    /// integer; the feed list must yield at least one entry, each parsing
    /// as a URL with an http or https scheme (stored canonically); window,
    /// interval and state location fall back to their defaults when absent
    /// or unusable.
    pub fn from_values(
        token: String,
        chat_id_str: &str,
        feeds_raw: &str,
        dedup_limit_str: Option<&str>,
        poll_str: Option<&str>,
        state_file: Option<String>,
    ) -> (r: Result<Config, ConfigError>)
        ensures
            match r {
                Ok(cfg) => valid_i64_str(chat_id_str@) && cfg.chat_id as int == i64_val(
                    chat_id_str@,
                ) && cfg.token@ == token@ && feeds_of(spec_tokens(feeds_raw@)) is Some
                    && cfg.feeds.deep_view() == feeds_of(spec_tokens(feeds_raw@))->0
                    && cfg.feeds@.len() > 0 && cfg.dedup_limit as nat == spec_limit(
                    match dedup_limit_str {
                        Some(s) => Some(s@),
                        None => None,
                    },
                ) && cfg.poll_every_minutes as nat == spec_poll(
                    match poll_str {
                        Some(s) => Some(s@),
                        None => None,
                    },
                ) && cfg.state_file@ == match state_file {
                    Some(p) => p@,
                    None => "state.json"@,
                },
                Err(e) => match e {
                    ConfigError::BadChatId => !valid_i64_str(chat_id_str@),
                    ConfigError::BadFeed(_) => valid_i64_str(chat_id_str@) && feeds_of(
                        spec_tokens(feeds_raw@),
                    ) is None,
                    ConfigError::NoFeeds => valid_i64_str(chat_id_str@) && feeds_of(
                        spec_tokens(feeds_raw@),
                    ) == Some(Seq::<Seq<char>>::empty()),
                },
            },
    {
        let chat_id = match parse_i64(chat_id_str) {
            Some(v) => v,
            None => {
                return Err(ConfigError::BadChatId);
            },
        };
        let toks = split_tokens(feeds_raw);
        let ghost tdv = toks.deep_view();
        let mut feeds: Vec<String> = Vec::new();
        let m = toks.len();
        let mut i: usize = 0;
        proof {
            assert(tdv.skip(0) =~= tdv);
            assert(feeds.deep_view() =~= Seq::<Seq<char>>::empty());
        }
        while i < m
            invariant
                i <= m,
                m == toks@.len(),
                tdv == toks.deep_view(),
                tdv == spec_tokens(feeds_raw@),
                valid_i64_str(chat_id_str@),
                match feeds_of(tdv.skip(i as int)) {
                    None => feeds_of(tdv) is None,
                    Some(rest) => feeds_of(tdv) == Some(feeds.deep_view() + rest),
                },
            decreases m - i,
        {
            proof {
                assert(tdv[i as int] == toks@[i as int]@);
                assert(tdv.skip(i as int)[0] == tdv[i as int]);
                assert(tdv.skip(i as int).drop_first() =~= tdv.skip(i as int + 1));
            }
            let cleaned = dequote(toks[i].as_str());
            if cleaned.unicode_len() == 0 {
                i += 1;
                continue;
            }
            match parse_url(cleaned) {
                None => {
                    proof {
                        assert(feeds_of(tdv.skip(i as int)) is None);
                    }
                    return Err(ConfigError::BadFeed(cleaned.to_owned()));
                },
                Some((scheme, canon)) => {
                    if str_eq(scheme.as_str(), "http") || str_eq(scheme.as_str(), "https") {
                        let ghost prev = feeds.deep_view();
                        let ghost q = url_parse_of(dequote_of(tdv[i as int]))->0;
                        feeds.push(canon);
                        proof {
                            assert(feeds.deep_view() =~= prev.push(q.1));
                            assert forall|rest: Seq<Seq<char>>|
                                feeds_of(tdv.skip(i as int + 1)) == Some(rest) implies prev + (
                            seq![q.1] + rest) =~= feeds.deep_view() + rest by {}
                        }
                    } else {
                        proof {
                            let q = url_parse_of(dequote_of(tdv[i as int]))->0;
                            assert(q.0 != "http"@ && q.0 != "https"@);
                            assert(feeds_of(tdv.skip(i as int)) is None);
                        }
                        return Err(ConfigError::BadFeed(cleaned.to_owned()));
                    }
                },
            }
            i += 1;
        }
        proof {
            assert(tdv.skip(m as int).len() == 0);
            assert(feeds.deep_view() + Seq::<Seq<char>>::empty() =~= feeds.deep_view());
        }
        if feeds.len() == 0 {
            proof {
                assert(feeds.deep_view() =~= Seq::<Seq<char>>::empty());
            }
            return Err(ConfigError::NoFeeds);
        }
        let dedup_limit: usize = match dedup_limit_str {
            None => 200,
            Some(s) => match parse_u64(s) {
                Some(v) => {
                    if v <= usize::MAX as u64 {
                        v as usize
                    } else {
                        200
                    }
                },
                None => 200,
            },
        };
        let poll_every_minutes: u64 = match poll_str {
            None => 5,
            Some(s) => match parse_u64(s) {
                Some(v) => v,
                None => 5,
            },
        };
        let state_file = match state_file {
            Some(p) => p,
            None => "state.json".to_owned(),
        };
        Ok(Config { token, chat_id, feeds, dedup_limit, poll_every_minutes, state_file })
    }
}

} // verus!
