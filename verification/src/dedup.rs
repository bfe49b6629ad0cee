//! The dedup store: for each feed URL an insertion-ordered list of the
//! identities already delivered, capped at a configured window. The store is
//! the single source of truth for "was this entry already sent".

use vstd::prelude::*;

verus! {

use crate::strutil::str_eq;

/// The delivered-identity memory of one feed: `url` names the feed, `ids`
/// holds the delivered identities, oldest first, each unique in the list.
pub struct FeedRecord {
    pub url: String,
    pub ids: Vec<String>,
}

/// The whole dedup memory: one record per feed, keys unique.
pub struct DedupState {
    pub feeds: Vec<FeedRecord>,
}

/// The mathematical content of the store: the (key, identities) pairs in
/// record order.
pub type PairsView = Seq<(Seq<char>, Seq<Seq<char>>)>;

/// Index of the first pair carrying `url`, if any.
pub open spec fn find_key(p: PairsView, url: Seq<char>) -> Option<int>
    decreases p.len(),
{
    if p.len() == 0 {
        None
    } else if p[0].0 == url {
        Some(0int)
    } else {
        match find_key(p.drop_first(), url) {
            None => None,
            Some(i) => Some(i + 1),
        }
    }
}

/// The identity list stored under `url`, if any.
pub open spec fn lookup(p: PairsView, url: Seq<char>) -> Option<Seq<Seq<char>>> {
    match find_key(p, url) {
        None => None,
        Some(i) => Some(p[i].1),
    }
}

/// Whether `id` is recorded as delivered for `url`.
pub open spec fn spec_seen(p: PairsView, url: Seq<char>, id: Seq<char>) -> bool {
    match lookup(p, url) {
        None => false,
        Some(ids) => ids.contains(id),
    }
}

/// Drops elements from the front until at most `k` remain.
pub open spec fn trunc_front(r: Seq<Seq<char>>, k: nat) -> Seq<Seq<char>> {
    if r.len() <= k {
        r
    } else {
        r.skip(r.len() - k)
    }
}

/// One delivered-identity update: append `id` unless already present, then
/// evict from the front down to the window `k`.
pub open spec fn mark_seq(r: Seq<Seq<char>>, id: Seq<char>, k: nat) -> Seq<Seq<char>> {
    if r.contains(id) {
        r
    } else {
        trunc_front(r.push(id), k)
    }
}

/// No two pairs carry the same key.
pub open spec fn keys_unique(p: PairsView) -> bool {
    forall|i: int, j: int| 0 <= i < j < p.len() ==> p[i].0 != p[j].0
}

/// The whole store after one `mark_sent` of `id` under `url`.
pub open spec fn mark_pairs(p: PairsView, url: Seq<char>, id: Seq<char>, k: nat) -> PairsView {
    match find_key(p, url) {
        Some(i) => p.update(i, (url, mark_seq(p[i].1, id, k))),
        None => p.push((url, mark_seq(Seq::<Seq<char>>::empty(), id, k))),
    }
}

/// The whole store after one `ensure_feed` of `url`.
pub open spec fn ensure_pairs(p: PairsView, url: Seq<char>) -> PairsView {
    match find_key(p, url) {
        Some(_) => p,
        None => p.push((url, Seq::<Seq<char>>::empty())),
    }
}

impl DedupState {
    pub open spec fn pairs(&self) -> PairsView {
        Seq::new(self.feeds@.len(), |i: int| (self.feeds@[i].url@, self.feeds@[i].ids.deep_view()))
    }

    /// Keys are unique across records.
    pub open spec fn wf(&self) -> bool {
        keys_unique(self.pairs())
    }

    /// An empty store: no feed has been seen yet.
    pub fn new() -> (r: DedupState)
        ensures
            r.pairs() =~= Seq::<(Seq<char>, Seq<Seq<char>>)>::empty(),
            r.wf(),
    {
        DedupState { feeds: Vec::new() }
    }

    fn find_index(&self, url: &str) -> (r: Option<usize>)
        ensures
            match r {
                None => find_key(self.pairs(), url@) is None,
                Some(i) => i < self.feeds@.len() && find_key(self.pairs(), url@) == Some(i as int),
            },
    {
        let ghost p = self.pairs();
        let n = self.feeds.len();
        let mut i: usize = 0;
        proof {
            assert(p.skip(0) =~= p);
        }
        while i < n
            invariant
                n == self.feeds@.len(),
                i <= n,
                p == self.pairs(),
                find_key(p, url@) == match find_key(p.skip(i as int), url@) {
                    None => None::<int>,
                    Some(k) => Some(k + i),
                },
            decreases n - i,
        {
            proof {
                assert(p.skip(i as int).len() == n - i);
                assert(p.skip(i as int)[0] == p[i as int]);
                assert(p.skip(i as int).drop_first() =~= p.skip(i as int + 1));
            }
            if str_eq(self.feeds[i].url.as_str(), url) {
                proof {
                    assert(p[i as int].0 == url@);
                    assert(find_key(p.skip(i as int), url@) == Some(0int));
                }
                return Some(i);
            }
            proof {
                assert(p[i as int].0 != url@);
            }
            i += 1;
        }
        proof {
            assert(p.skip(n as int).len() == 0);
        }
        None
    }

    fn record_contains(ids: &Vec<String>, id: &str) -> (r: bool)
        ensures
            r == ids.deep_view().contains(id@),
    {
        let n = ids.len();
        let mut i: usize = 0;
        while i < n
            invariant
                n == ids@.len(),
                i <= n,
                forall|j: int| 0 <= j < i ==> ids.deep_view()[j] != id@,
            decreases n - i,
        {
            if str_eq(ids[i].as_str(), id) {
                assert(ids.deep_view()[i as int] == id@);
                return true;
            }
            i += 1;
        }
        false
    }

    /// Creates an empty record for `url` if none exists; otherwise changes
    /// nothing. Records of other feeds are never touched.
    pub fn ensure_feed(&mut self, url: &str)
        requires
            old(self).wf(),
        ensures
            final(self).wf(),
            final(self).pairs() == ensure_pairs(old(self).pairs(), url@),
    {
        match self.find_index(url) {
            Some(_) => {},
            None => {
                let ghost oldp = self.pairs();
                self.feeds.push(FeedRecord { url: url.to_owned(), ids: Vec::new() });
                proof {
                    lemma_find_key_none(oldp, url@);
                    assert(self.pairs() =~~= oldp.push((url@, Seq::<Seq<char>>::empty())));
                    assert forall|a: int, b: int|
                        0 <= a < b < self.pairs().len() implies self.pairs()[a].0
                        != self.pairs()[b].0 by {
                        if b == oldp.len() {
                            assert(oldp[a].0 != url@);
                        }
                    }
                }
            },
        }
    }

    /// True exactly when `id` is recorded as delivered for `url`; a feed
    /// without a record has seen nothing.
    pub fn seen(&self, url: &str, id: &str) -> (r: bool)
        ensures
            r == spec_seen(self.pairs(), url@, id@),
    {
        match self.find_index(url) {
            None => false,
            Some(i) => {
                let r = Self::record_contains(&self.feeds[i].ids, id);
                proof {
                    assert(self.pairs()[i as int].1 == self.feeds@[i as int].ids.deep_view());
                }
                r
            },
        }
    }

    /// The single mutator: appends `id` to the feed's record unless already
    /// present, then evicts oldest identities until the record fits the
    /// window. A missing record is created first. No other feed's record
    /// changes.
    pub fn mark_sent(&mut self, url: &str, id: String, dedup_limit: usize)
        requires
            old(self).wf(),
        ensures
            final(self).wf(),
            final(self).pairs() == mark_pairs(old(self).pairs(), url@, id@, dedup_limit as nat),
    {
        let ghost oldp = self.pairs();
        let idx: usize;
        match self.find_index(url) {
            Some(i) => {
                idx = i;
                proof {
                    lemma_find_key_some(oldp, url@);
                }
            },
            None => {
                proof {
                    lemma_find_key_none(oldp, url@);
                }
                idx = self.feeds.len();
                self.feeds.push(FeedRecord { url: url.to_owned(), ids: Vec::new() });
                proof {
                    assert(self.pairs() =~~= oldp.push((url@, Seq::<Seq<char>>::empty())));
                    assert forall|a: int, b: int|
                        0 <= a < b < self.pairs().len() implies self.pairs()[a].0
                        != self.pairs()[b].0 by {
                        if b == oldp.len() {
                            assert(oldp[a].0 != url@);
                        }
                    }
                }
            },
        }
        let ghost basep = self.pairs();
        let ghost k = dedup_limit as nat;
        let ghost base_ids = basep[idx as int].1;
        proof {
            assert(keys_unique(basep));
            assert(basep[idx as int].0 == url@);
        }
        let ghost base_feeds = self.feeds@;
        let mut rec = self.feeds.remove(idx);
        proof {
            assert(rec.ids.deep_view() == base_ids);
            assert(rec.url@ == url@);
        }
        if Self::record_contains(&rec.ids, id.as_str()) {
            proof {
                assert(mark_seq(base_ids, id@, k) == base_ids);
            }
        } else {
            let ghost orig = rec.ids.deep_view();
            rec.ids.push(id);
            proof {
                assert(rec.ids.deep_view() =~= orig.push(id@));
            }
            let ghost pushed = rec.ids.deep_view();
            proof {
                assert(pushed.skip(0) =~= pushed);
            }
            while rec.ids.len() > dedup_limit
                invariant
                    rec.url@ == url@,
                    rec.ids.deep_view() == pushed.skip(pushed.len() - rec.ids@.len()),
                    rec.ids@.len() <= pushed.len(),
                    dedup_limit <= rec.ids@.len() || rec.ids@.len() == pushed.len(),
                decreases rec.ids@.len(),
            {
                let ghost before = rec.ids.deep_view();
                rec.ids.remove(0);
                proof {
                    assert(rec.ids.deep_view() =~= before.drop_first());
                    assert(before.drop_first() =~= pushed.skip(pushed.len() - rec.ids@.len()));
                }
            }
            proof {
                assert(pushed.skip(0) =~= pushed);
                assert(rec.ids.deep_view() == trunc_front(pushed, k));
                assert(rec.ids.deep_view() == mark_seq(base_ids, id@, k));
            }
        }
        let ghost grec = rec;
        self.feeds.insert(idx, rec);
        proof {
            assert(grec.url@ == url@);
            assert(grec.ids.deep_view() == mark_seq(base_ids, id@, k));
            assert(self.feeds@ =~= base_feeds.update(idx as int, grec));
            assert(self.pairs() =~~= basep.update(idx as int, (url@, mark_seq(base_ids, id@, k))));
            lemma_restore(oldp, basep, url@, idx as int, id@, k);
            assert forall|a: int, b: int|
                0 <= a < b < self.pairs().len() implies self.pairs()[a].0 != self.pairs()[b].0 by {
                assert(self.pairs()[a].0 == basep[a].0);
                assert(self.pairs()[b].0 == basep[b].0);
            }
        }
    }
}

impl DedupState {
    /// The stored record under `url`, if any: identities oldest first.
    pub fn record(&self, url: &str) -> (r: Option<&Vec<String>>)
        ensures
            match r {
                None => lookup(self.pairs(), url@) is None,
                Some(ids) => lookup(self.pairs(), url@) == Some(ids.deep_view()),
            },
    {
        match self.find_index(url) {
            None => None,
            Some(i) => Some(&self.feeds[i].ids),
        }
    }
}

/// Law: a record within the window stays within it through any marking;
/// the bound holds after every mutation.
pub proof fn lemma_record_bounded(r: Seq<Seq<char>>, id: Seq<char>, k: nat)
    requires
        r.len() <= k,
    ensures
        mark_seq(r, id, k).len() <= k,
{
}

/// Repeated marking: the identities of `ids` are marked first to last.
pub open spec fn mark_all(r: Seq<Seq<char>>, ids: Seq<Seq<char>>, k: nat) -> Seq<Seq<char>>
    decreases ids.len(),
{
    if ids.len() == 0 {
        r
    } else {
        mark_all(mark_seq(r, ids[0], k), ids.drop_first(), k)
    }
}

/// No identity occurs twice.
pub open spec fn distinct(ids: Seq<Seq<char>>) -> bool {
    forall|i: int, j: int| 0 <= i < j < ids.len() ==> ids[i] != ids[j]
}

/// Law: marking the same identity twice leaves the record exactly as after
/// the first marking, whatever the window.
pub proof fn lemma_mark_idempotent(r: Seq<Seq<char>>, id: Seq<char>, k: nat)
    ensures
        mark_seq(mark_seq(r, id, k), id, k) == mark_seq(r, id, k),
{
    if !r.contains(id) {
        let m1 = trunc_front(r.push(id), k);
        if k == 0 {
            assert(m1.len() == 0);
            assert(trunc_front(m1.push(id), 0) =~= m1);
        } else {
            assert(r.push(id)[r.len() as int] == id);
            if r.push(id).len() <= k {
                assert(m1[m1.len() - 1] == id);
            } else {
                assert(m1[m1.len() - 1] == r.push(id)[r.push(id).len() - 1]);
            }
            assert(m1.contains(id));
        }
    }
}

/// Whatever the window keeps is something the full list held.
proof fn lemma_trunc_contains(r: Seq<Seq<char>>, k: nat, x: Seq<char>)
    requires
        trunc_front(r, k).contains(x),
    ensures
        r.contains(x),
{
    if r.len() > k {
        let i = choose|i: int|
            0 <= i < trunc_front(r, k).len() && trunc_front(r, k)[i] == x;
        assert(r[r.len() - k + i] == x);
    }
}

/// Truncating before appending more is the same as truncating once at the end.
proof fn lemma_trunc_absorb(a: Seq<Seq<char>>, b: Seq<Seq<char>>, k: nat)
    ensures
        trunc_front(trunc_front(a, k) + b, k) == trunc_front(a + b, k),
{
    let a1 = trunc_front(a, k);
    if a.len() <= k {
        assert(a1 == a);
    } else {
        assert(a1.len() == k);
        assert((a1 + b).len() == k + b.len());
        assert((a + b).len() == a.len() + b.len());
        if b.len() == 0 {
            assert(a1 + b =~= a1);
            assert(trunc_front(a1 + b, k) =~= a1);
            assert(trunc_front(a + b, k) =~= trunc_front(a, k));
        } else {
            assert forall|i: int| 0 <= i < k implies trunc_front(a1 + b, k)[i] == trunc_front(
                a + b,
                k,
            )[i] by {
                assert(trunc_front(a1 + b, k)[i] == (a1 + b)[b.len() + i]);
                assert(trunc_front(a + b, k)[i] == (a + b)[a.len() + b.len() - k + i]);
                if b.len() + i < k {
                    assert((a1 + b)[b.len() + i] == a1[b.len() + i]);
                    assert(a1[b.len() + i] == a[a.len() - k + b.len() + i]);
                    assert((a + b)[a.len() + b.len() - k + i] == a[a.len() + b.len() - k + i]);
                } else {
                    assert((a1 + b)[b.len() + i] == b[b.len() + i - k]);
                    assert((a + b)[a.len() + b.len() - k + i] == b[b.len() - k + i]);
                }
            }
            assert(trunc_front(a1 + b, k) =~= trunc_front(a + b, k));
        }
    }
}

/// Marking a run of fresh, pairwise-distinct identities appends them all and
/// then truncates once to the window.
proof fn lemma_mark_all_accum(r: Seq<Seq<char>>, ids: Seq<Seq<char>>, k: nat)
    requires
        1 <= ids.len(),
        distinct(ids),
        forall|l: int| 0 <= l < ids.len() ==> !r.contains(#[trigger] ids[l]),
    ensures
        mark_all(r, ids, k) == trunc_front(r + ids, k),
    decreases ids.len(),
{
    assert(!r.contains(ids[0]));
    let m1 = mark_seq(r, ids[0], k);
    assert(m1 == trunc_front(r.push(ids[0]), k));
    let rest = ids.drop_first();
    if ids.len() == 1 {
        assert(r.push(ids[0]) =~= r + ids);
        assert(rest.len() == 0);
        assert(mark_all(m1, rest, k) == m1);
        assert(mark_all(r, ids, k) == mark_all(m1, rest, k));
    } else {
        assert forall|l: int| 0 <= l < rest.len() implies !m1.contains(#[trigger] rest[l]) by {
            if m1.contains(rest[l]) {
                lemma_trunc_contains(r.push(ids[0]), k, rest[l]);
                let w = choose|w: int|
                    0 <= w < r.push(ids[0]).len() && r.push(ids[0])[w] == rest[l];
                if w < r.len() {
                    assert(r.contains(rest[l]));
                    assert(rest[l] == ids[l + 1]);
                } else {
                    assert(ids[0] == ids[l + 1]);
                }
            }
        }
        assert forall|i: int, j: int| 0 <= i < j < rest.len() implies rest[i] != rest[j] by {
            assert(rest[i] == ids[i + 1]);
            assert(rest[j] == ids[j + 1]);
        }
        lemma_mark_all_accum(m1, rest, k);
        lemma_trunc_absorb(r.push(ids[0]), rest, k);
        assert(r.push(ids[0]) + rest =~= r + ids);
    }
}

/// Law: after marking at least `k` fresh, pairwise-distinct identities into
/// any record, the record holds exactly the `k` most recently marked ones, in
/// marking order, the older ones evicted from the front.
pub proof fn lemma_bounded_window(r: Seq<Seq<char>>, ids: Seq<Seq<char>>, k: nat)
    requires
        1 <= ids.len(),
        k <= ids.len(),
        distinct(ids),
        forall|l: int| 0 <= l < ids.len() ==> !r.contains(#[trigger] ids[l]),
    ensures
        mark_all(r, ids, k) == ids.skip(ids.len() - k),
        mark_all(r, ids, k).len() == k,
{
    lemma_mark_all_accum(r, ids, k);
    assert((r + ids).len() == r.len() + ids.len());
    assert forall|i: int| 0 <= i < k implies trunc_front(r + ids, k)[i] == ids.skip(
        ids.len() - k,
    )[i] by {
        assert(trunc_front(r + ids, k)[i] == (r + ids)[r.len() + ids.len() - k + i]);
        assert((r + ids)[r.len() + ids.len() - k + i] == ids[ids.len() - k + i]);
    }
    assert(trunc_front(r + ids, k) =~= ids.skip(ids.len() - k));
}

/// A found index carries the sought key.
proof fn lemma_find_key_some(p: PairsView, url: Seq<char>)
    requires
        find_key(p, url) is Some,
    ensures
        0 <= find_key(p, url)->Some_0 < p.len(),
        p[find_key(p, url)->Some_0].0 == url,
    decreases p.len(),
{
    if p.len() > 0 && p[0].0 != url {
        lemma_find_key_some(p.drop_first(), url);
    }
}

/// When no pair carries `url`, every key differs from it.
proof fn lemma_find_key_none(p: PairsView, url: Seq<char>)
    requires
        find_key(p, url) is None,
    ensures
        forall|j: int| 0 <= j < p.len() ==> p[j].0 != url,
    decreases p.len(),
{
    if p.len() > 0 {
        lemma_find_key_none(p.drop_first(), url);
        assert forall|j: int| 0 <= j < p.len() implies p[j].0 != url by {
            if j > 0 {
                assert(p.drop_first()[j - 1] == p[j]);
            }
        }
    }
}

/// Relates the pairs after the optional record creation back to the pairs
/// before the call, turning an update of the created record into the shape
/// the public contract states.
proof fn lemma_restore(oldp: PairsView, basep: PairsView, url: Seq<char>, idx: int, id: Seq<char>, k: nat)
    requires
        match find_key(oldp, url) {
            Some(i) => basep == oldp && idx == i,
            None => basep == oldp.push((url, Seq::<Seq<char>>::empty())) && idx == oldp.len(),
        },
        0 <= idx < basep.len(),
        basep[idx].0 == url,
    ensures
        basep.update(idx, (url, mark_seq(basep[idx].1, id, k))) == match find_key(oldp, url) {
            Some(i) => oldp.update(i, (url, mark_seq(oldp[i].1, id, k))),
            None => oldp.push((url, mark_seq(Seq::<Seq<char>>::empty(), id, k))),
        },
{
    match find_key(oldp, url) {
        Some(i) => {},
        None => {
            assert(basep[idx].1 =~= Seq::<Seq<char>>::empty());
            assert(basep.update(idx, (url, mark_seq(basep[idx].1, id, k))) =~~= oldp.push(
                (url, mark_seq(Seq::<Seq<char>>::empty(), id, k)),
            ));
        },
    }
}

proof fn lemma_find_key_update(
    p: PairsView,
    i: int,
    v: (Seq<char>, Seq<Seq<char>>),
    other: Seq<char>,
)
    requires
        0 <= i < p.len(),
        v.0 != other,
        p[i].0 != other,
    ensures
        find_key(p.update(i, v), other) == find_key(p, other),
    decreases p.len(),
{
    let q = p.update(i, v);
    if i == 0 {
        assert(q[0] == v);
        assert(q.drop_first() =~= p.drop_first());
    } else {
        assert(q[0] == p[0]);
        assert(q.drop_first() =~= p.drop_first().update(i - 1, v));
        if p[0].0 != other {
            lemma_find_key_update(p.drop_first(), i - 1, v, other);
        }
    }
}

proof fn lemma_find_key_push(p: PairsView, x: (Seq<char>, Seq<Seq<char>>), other: Seq<char>)
    requires
        x.0 != other,
    ensures
        find_key(p.push(x), other) == find_key(p, other),
    decreases p.len(),
{
    let q = p.push(x);
    if p.len() == 0 {
        assert(q[0] == x);
        assert(q.drop_first() =~= Seq::<(Seq<char>, Seq<Seq<char>>)>::empty());
        assert(find_key(q.drop_first(), other) is None);
        assert(find_key(q, other) is None);
        assert(find_key(p, other) is None);
    } else {
        assert(q[0] == p[0]);
        assert(q.drop_first() =~= p.drop_first().push(x));
        lemma_find_key_push(p.drop_first(), x, other);
        if p[0].0 == other {
            assert(find_key(q, other) == Some(0int));
            assert(find_key(p, other) == Some(0int));
        } else {
            assert(find_key(q, other) == match find_key(q.drop_first(), other) {
                None => None::<int>,
                Some(i) => Some(i + 1),
            });
            assert(find_key(p, other) == match find_key(p.drop_first(), other) {
                None => None::<int>,
                Some(i) => Some(i + 1),
            });
        }
    }
}

/// Law: one feed's updates never touch another feed's record. Marking a
/// delivery under `url`, or creating `url`'s record, leaves the record of
/// every other feed exactly as it was; so a feed whose fetch failed keeps
/// its record through the whole rest of the cycle.
pub proof fn lemma_feed_isolation(
    p: PairsView,
    url: Seq<char>,
    id: Seq<char>,
    k: nat,
    other: Seq<char>,
)
    requires
        other != url,
    ensures
        lookup(mark_pairs(p, url, id, k), other) == lookup(p, other),
        lookup(ensure_pairs(p, url), other) == lookup(p, other),
{
    match find_key(p, url) {
        Some(i) => {
            lemma_find_key_some(p, url);
            lemma_find_key_update(p, i, (url, mark_seq(p[i].1, id, k)), other);
            match find_key(p, other) {
                None => {},
                Some(j) => {
                    lemma_find_key_some(p, other);
                    assert(p.update(i, (url, mark_seq(p[i].1, id, k)))[j] == p[j]);
                },
            }
        },
        None => {
            lemma_find_key_push(p, (url, mark_seq(Seq::<Seq<char>>::empty(), id, k)), other);
            lemma_find_key_push(p, (url, Seq::<Seq<char>>::empty()), other);
            match find_key(p, other) {
                None => {},
                Some(j) => {
                    lemma_find_key_some(p, other);
                    assert(p.push((url, mark_seq(Seq::<Seq<char>>::empty(), id, k)))[j] == p[j]);
                    assert(p.push((url, Seq::<Seq<char>>::empty()))[j] == p[j]);
                },
            }
        },
    }
}

} // verus!
