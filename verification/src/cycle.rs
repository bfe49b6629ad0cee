//! The per-feed cycle: given a fetched document, walk its entries oldest
//! first, offer each undelivered entry for delivery, and commit each
//! successful delivery to the dedup store; plus the running summary of one
//! whole poll cycle. The caller performs the fetching and the sending and
//! drives this state machine between them.

use vstd::prelude::*;

verus! {

use crate::dedup::{DedupState, PairsView, mark_pairs, spec_seen};
use crate::identity::{
    FeedEntry, entry_id, entry_link, entry_title, spec_entry_id, spec_entry_link, spec_entry_title,
};
use crate::strutil::{all_ws, dec_nat, is_blank, u64_to_dec};

/// A parsed feed document as the fetch collaborator hands it over: an
/// optional feed title and the entries in upstream order, newest first.
pub struct FeedDoc {
    pub title: Option<String>,
    pub entries: Vec<FeedEntry>,
}

/// The feed's display name: its own title when present and not blank, else
/// the feed URL.
pub open spec fn spec_display_name(title: Option<Seq<char>>, url: Seq<char>) -> Seq<char> {
    match title {
        Some(t) => if all_ws(t) {
            url
        } else {
            t
        },
        None => url,
    }
}

/// The text of one delivered message: the feed tag in brackets, then the
/// entry title, then the entry link, each on a line of its own.
pub open spec fn spec_message(tag: Seq<char>, e: FeedEntry) -> Seq<char> {
    "["@ + tag + "]\n"@ + spec_entry_title(e) + "\n"@ + spec_entry_link(e)
}

/// One pending delivery: the entry's identity and the message text.
pub struct Delivery {
    pub identity: String,
    pub text: String,
}

/// The first index at or after `from` whose entry is not yet recorded as
/// delivered for `url`.
pub open spec fn first_new(entries: Seq<FeedEntry>, from: int, p: PairsView, url: Seq<char>) -> Option<
    int,
>
    decreases entries.len() - from,
{
    if from < 0 || from >= entries.len() {
        None
    } else if !spec_seen(p, url, spec_entry_id(entries[from])) {
        Some(from)
    } else {
        first_new(entries, from + 1, p, url)
    }
}

/// One feed's cycle in progress: the entries in delivery order (oldest
/// first), a cursor over them, and the count of deliveries so far.
pub struct FeedRun {
    pub feed_url: String,
    pub feed_tag: String,
    pub entries: Vec<FeedEntry>,
    pub next_idx: usize,
    pub delivered: usize,
}

impl FeedRun {
    pub open spec fn wf(&self) -> bool {
        self.next_idx <= self.entries@.len() && self.delivered <= self.next_idx
    }

    pub open spec fn spec_entries(&self) -> Seq<FeedEntry> {
        self.entries@
    }

    pub open spec fn spec_url(&self) -> Seq<char> {
        self.feed_url@
    }

    pub open spec fn spec_tag(&self) -> Seq<char> {
        self.feed_tag@
    }

    pub open spec fn spec_next(&self) -> int {
        self.next_idx as int
    }

    pub open spec fn spec_delivered(&self) -> int {
        self.delivered as int
    }

    /// Starts one feed's cycle from a parsed document: the entries are
    /// reversed into delivery order (upstream is newest first, delivery is
    /// oldest first) and the display name is fixed.
    pub fn new(feed_url: String, doc: FeedDoc) -> (r: FeedRun)
        ensures
            r.wf(),
            r.spec_url() == feed_url@,
            r.spec_entries() == doc.entries@.reverse(),
            r.spec_tag() == spec_display_name(
                match doc.title {
                    Some(t) => Some(t@),
                    None => None,
                },
                feed_url@,
            ),
            r.spec_next() == 0,
            r.spec_delivered() == 0,
    {
        let tag = match &doc.title {
            Some(t) => {
                if !is_blank(t.as_str()) {
                    t.clone()
                } else {
                    feed_url.clone()
                }
            },
            None => feed_url.clone(),
        };
        let ghost upstream = doc.entries@;
        let mut rest = doc.entries;
        let mut entries: Vec<FeedEntry> = Vec::new();
        proof {
            assert(rest@ =~= upstream.take(rest@.len() as int));
            assert(entries@ =~= upstream.skip(rest@.len() as int).reverse());
        }
        while rest.len() > 0
            invariant
                rest@.len() <= upstream.len(),
                rest@ == upstream.take(rest@.len() as int),
                entries@ == upstream.skip(rest@.len() as int).reverse(),
            decreases rest@.len(),
        {
            let ghost m = rest@.len() as int;
            let e = rest.pop().unwrap();
            entries.push(e);
            proof {
                assert(rest@ =~= upstream.take(m - 1));
                assert(e == upstream[m - 1]);
                assert(entries@ =~= upstream.skip(m - 1).reverse());
            }
        }
        proof {
            assert(entries@ =~= upstream.reverse());
        }
        FeedRun { feed_url, feed_tag: tag, entries, next_idx: 0, delivered: 0 }
    }

    /// The feed's display name.
    pub fn tag(&self) -> (r: &String)
        ensures
            r@ == self.spec_tag(),
    {
        &self.feed_tag
    }

    /// How many entries this run has delivered so far.
    pub fn delivered_count(&self) -> (r: usize)
        ensures
            r as int == self.spec_delivered(),
    {
        self.delivered
    }

    /// Moves the cursor to the next entry not yet recorded as delivered,
    /// skipping the already-seen ones, and prepares its delivery; `None`
    /// when the run is done. The cursor passes everything visited, so after
    /// a failed delivery the caller simply asks again: the entry stays
    /// unmarked and comes back in a future cycle.
    pub fn next_delivery(&mut self, state: &DedupState) -> (r: Option<Delivery>)
        requires
            old(self).wf(),
        ensures
            final(self).wf(),
            final(self).spec_entries() == old(self).spec_entries(),
            final(self).spec_url() == old(self).spec_url(),
            final(self).spec_tag() == old(self).spec_tag(),
            final(self).spec_delivered() == old(self).spec_delivered(),
            match first_new(
                old(self).spec_entries(),
                old(self).spec_next(),
                state.pairs(),
                old(self).spec_url(),
            ) {
                None => r is None && final(self).spec_next() == old(self).spec_entries().len(),
                Some(j) => r is Some && final(self).spec_next() == j + 1
                    && r->Some_0.identity@ == spec_entry_id(old(self).spec_entries()[j])
                    && r->Some_0.text@ == spec_message(
                    old(self).spec_tag(),
                    old(self).spec_entries()[j],
                ),
            },
    {
        let ghost start = self.next_idx as int;
        let ghost ev = self.entries@;
        let ghost p = state.pairs();
        let ghost u = self.feed_url@;
        let n = self.entries.len();
        while self.next_idx < n
            invariant
                n == self.entries@.len(),
                self.wf(),
                self.entries@ == ev,
                self.feed_url@ == u,
                ev == old(self).entries@,
                u == old(self).feed_url@,
                start == old(self).next_idx as int,
                self.feed_tag@ == old(self).feed_tag@,
                self.delivered == old(self).delivered,
                start <= self.next_idx as int,
                p == state.pairs(),
                first_new(ev, start, p, u) == first_new(ev, self.next_idx as int, p, u),
            decreases n - self.next_idx,
        {
            let id = entry_id(&self.entries[self.next_idx]);
            if state.seen(self.feed_url.as_str(), id.as_str()) {
                proof {
                    assert(first_new(ev, self.next_idx as int, p, u) == first_new(
                        ev,
                        self.next_idx as int + 1,
                        p,
                        u,
                    ));
                }
                self.next_idx += 1;
            } else {
                let e = &self.entries[self.next_idx];
                let title = entry_title(e);
                let link = entry_link(e);
                let mut text = "[".to_owned();
                text.append(self.feed_tag.as_str());
                text.append("]\n");
                text.append(title.as_str());
                text.append("\n");
                text.append(link.as_str());
                proof {
                    assert(first_new(ev, self.next_idx as int, p, u) == Some(
                        self.next_idx as int,
                    ));
                }
                self.next_idx += 1;
                return Some(Delivery { identity: id, text });
            }
        }
        proof {
            assert(first_new(ev, n as int, p, u) is None);
        }
        None
    }

    /// Records one successful delivery: counts it and marks the identity as
    /// delivered in the store.
    pub fn commit_delivery(&mut self, state: &mut DedupState, d: Delivery, dedup_limit: usize)
        requires
            old(self).wf(),
            old(state).wf(),
            old(self).spec_delivered() < old(self).spec_next(),
        ensures
            final(self).wf(),
            final(self).spec_entries() == old(self).spec_entries(),
            final(self).spec_url() == old(self).spec_url(),
            final(self).spec_tag() == old(self).spec_tag(),
            final(self).spec_next() == old(self).spec_next(),
            final(self).spec_delivered() == old(self).spec_delivered() + 1,
            final(state).wf(),
            final(state).pairs() == mark_pairs(
                old(state).pairs(),
                old(self).spec_url(),
                d.identity@,
                dedup_limit as nat,
            ),
    {
        self.delivered += 1;
        state.mark_sent(self.feed_url.as_str(), d.identity, dedup_limit);
    }
}

/// Law: in a run over entries none of which has been delivered before, the
/// cursor never skips: each ask yields exactly the entry at the cursor, so
/// the deliveries come strictly in delivery order, the reverse of upstream
/// order, the most recent entry last.
pub proof fn lemma_delivery_order(entries: Seq<FeedEntry>, from: int, p: PairsView, url: Seq<char>)
    requires
        0 <= from < entries.len(),
        forall|i: int| 0 <= i < entries.len() ==> !spec_seen(
            p,
            url,
            spec_entry_id(#[trigger] entries[i]),
        ),
    ensures
        first_new(entries, from, p, url) == Some(from),
{
}

/// One feed's line in the cycle summary.
pub open spec fn spec_feed_line(name: Seq<char>, n: nat) -> Seq<char> {
    name + ":"@ + dec_nat(n)
}

/// The summary lines joined with a comma and a space.
pub open spec fn spec_joined(ls: Seq<Seq<char>>) -> Seq<char>
    decreases ls.len(),
{
    if ls.len() == 0 {
        Seq::<char>::empty()
    } else if ls.len() == 1 {
        ls[0]
    } else {
        spec_joined(ls.drop_last()) + ", "@ + ls.last()
    }
}

/// The running summary of one poll cycle: the total deliveries and one
/// line per processed feed.
pub struct CycleReport {
    pub total: u64,
    pub lines: Vec<String>,
}

impl CycleReport {
    /// An empty summary, before any feed has run.
    pub fn new() -> (r: CycleReport)
        ensures
            r.total == 0,
            r.lines.deep_view() =~= Seq::<Seq<char>>::empty(),
    {
        CycleReport { total: 0, lines: Vec::new() }
    }

    /// Accounts one finished feed under its display name; the total
    /// saturates rather than overflow.
    pub fn add_feed(&mut self, name: &str, delivered: usize)
        ensures
            final(self).total == if old(self).total + delivered <= u64::MAX {
                old(self).total + delivered
            } else {
                u64::MAX as int
            },
            final(self).lines.deep_view() == old(self).lines.deep_view().push(
                spec_feed_line(name@, delivered as nat),
            ),
    {
        let d64 = delivered as u64;
        if self.total <= u64::MAX - d64 {
            self.total = self.total + d64;
        } else {
            self.total = u64::MAX;
        }
        let mut line = name.to_owned();
        line.append(":");
        line.append(u64_to_dec(d64).as_str());
        let ghost prev = self.lines.deep_view();
        self.lines.push(line);
        proof {
            assert(self.lines.deep_view() =~= prev.push(spec_feed_line(name@, delivered as nat)));
        }
    }

    /// The per-feed breakdown, comma-separated in processing order.
    pub fn breakdown(&self) -> (r: String)
        ensures
            r@ == spec_joined(self.lines.deep_view()),
    {
        let ghost dv = self.lines.deep_view();
        let mut s = String::new();
        let n = self.lines.len();
        let mut i: usize = 0;
        proof {
            assert(dv.take(0) =~= Seq::<Seq<char>>::empty());
        }
        while i < n
            invariant
                n == self.lines@.len(),
                i <= n,
                dv == self.lines.deep_view(),
                s@ == spec_joined(dv.take(i as int)),
            decreases n - i,
        {
            if i > 0 {
                s.append(", ");
            }
            s.append(self.lines[i].as_str());
            proof {
                assert(dv.take(i as int + 1).drop_last() =~= dv.take(i as int));
                assert(dv.take(i as int + 1).last() == dv[i as int]);
                if i == 0 {
                    assert(spec_joined(dv.take(1)) == dv[0]);
                }
            }
            i += 1;
        }
        proof {
            assert(dv.take(n as int) =~= dv);
        }
        s
    }
}

} // verus!
