//! The timeout tracker: per peer and per reply category it counts
//! outstanding expectations and remembers a deadline; expired
//! expectations evict the peer's entries and report the peer.

use vstd::prelude::*;
use vstd::pervasive::VecAdditionalExecFns;

verus! {

/// The categories of replies a peer can owe us.
#[derive(Clone, Copy, PartialEq, Eq, Structural, Debug)]
pub enum ExpectedReply {
    /// a reply to our content poll
    PollContent,
    /// the peer's IBLT
    Iblt,
    /// a requested content record
    Content,
    /// a content request
    Get,
}

/// One outstanding expectation: how many replies of one category one
/// peer owes, and until when.
pub struct Expectation {
    /// the peer the replies are expected from
    pub peer: u64,
    /// the category of the expected replies
    pub category: ExpectedReply,
    /// how many replies are outstanding
    pub count: u64,
    /// the instant the expectation expires
    pub deadline: u64,
}

/// How many replies of a category a peer owes according to `s`.
pub open spec fn count_of(s: Seq<Expectation>, peer: u64, cat: ExpectedReply) -> int
    decreases s.len(),
{
    if s.len() == 0 {
        0
    } else if s[0].peer == peer && s[0].category == cat {
        s[0].count as int
    } else {
        count_of(s.drop_first(), peer, cat)
    }
}

/// Whether an expectation has expired at instant `now`: replies are
/// still owed and the deadline has passed.
pub open spec fn expired(e: Expectation, now: u64) -> bool {
    e.count > 0 && e.deadline < now
}

/// Whether `s` holds the expectation `e`.
pub open spec fn holds_expectation(s: Seq<Expectation>, e: Expectation) -> bool {
    exists|j: int| 0 <= j < s.len() && s[j] == e
}

/// Whether some expectation of peer `p` in `s` has expired at `now`.
pub open spec fn has_expired_entry(s: Seq<Expectation>, p: u64, now: u64) -> bool {
    exists|j: int| 0 <= j < s.len() && s[j].peer == p && expired(s[j], now)
}

/// The retained entries `kept` are the entries of `s` at the strictly
/// increasing positions `src`, all below `i`, none of a peer in `bad`.
pub open spec fn retained_from(
    s: Seq<Expectation>,
    bad: Seq<u64>,
    kept: Seq<Expectation>,
    src: Seq<int>,
    i: int,
) -> bool {
    &&& src.len() == kept.len()
    &&& forall|p: int| 0 <= p < src.len() ==> 0 <= #[trigger] src[p] < i
    &&& forall|p: int, q: int| 0 <= p < q < src.len() ==> src[p] < src[q]
    &&& forall|p: int| 0 <= p < kept.len() ==> #[trigger] kept[p] == s[src[p]]
    &&& forall|p: int| 0 <= p < kept.len() ==> !bad.contains(s[#[trigger] src[p]].peer)
}

/// At most one entry per peer and category.
pub open spec fn tracker_wf(s: Seq<Expectation>) -> bool {
    forall|i: int, j: int|
        0 <= i < j < s.len() ==> !(#[trigger] s[i].peer == #[trigger] s[j].peer && s[i].category
            == s[j].category)
}

/// Tracks outstanding expectations against all peers.
pub struct TimeoutTracker {
    /// the outstanding expectations, at most one per peer and category
    pub entries: Vec<Expectation>,
    /// how long a peer has to answer, in the tick unit
    pub grace: u64,
}

impl TimeoutTracker {
    /// One entry per peer and category.
    pub open spec fn wf(&self) -> bool {
        tracker_wf(self.entries@)
    }

    /// A tracker with no outstanding expectations.
    pub fn new(grace: u64) -> (r: TimeoutTracker)
        ensures
            r.wf(),
            r.entries@.len() == 0,
            r.grace == grace,
    {
        TimeoutTracker { entries: Vec::new(), grace }
    }

    fn find(&self, peer: u64, cat: ExpectedReply) -> (r: Option<usize>)
        ensures
            (r matches Some(i) ==> i < self.entries@.len() && self.entries@[i as int].peer == peer
                && self.entries@[i as int].category == cat && count_of(self.entries@, peer, cat)
                == self.entries@[i as int].count as int),
            (r is None ==> count_of(self.entries@, peer, cat) == 0 && forall|i: int|
                0 <= i < self.entries@.len() ==> !(#[trigger] self.entries@[i].peer == peer
                    && self.entries@[i].category == cat)),
    {
        proof {
            assert(self.entries@.skip(0) =~= self.entries@);
        }
        let mut i: usize = 0;
        while i < self.entries.len()
            invariant
                i <= self.entries@.len(),
                count_of(self.entries@, peer, cat) == count_of(
                    self.entries@.skip(i as int),
                    peer,
                    cat,
                ),
                forall|j: int|
                    0 <= j < i ==> !(#[trigger] self.entries@[j].peer == peer
                        && self.entries@[j].category == cat),
            decreases self.entries@.len() - i,
        {
            proof {
                assert(self.entries@.skip(i as int)[0] == self.entries@[i as int]);
                assert(self.entries@.skip(i as int).drop_first() =~= self.entries@.skip(i + 1));
            }
            if self.entries[i].peer == peer && self.entries[i].category == cat {
                return Some(i);
            }
            i += 1;
        }
        None
    }

    /// Records that `peer` now owes `n` more replies of category `cat`;
    /// the deadline is pushed `grace` past `now`. Counts and deadlines
    /// saturate rather than wrap.
    #[verifier::loop_isolation(false)]
    pub fn expect(&mut self, peer: u64, n: u64, cat: ExpectedReply, now: u64)
        requires
            old(self).wf(),
        ensures
            final(self).wf(),
            final(self).grace == old(self).grace,
            count_of(final(self).entries@, peer, cat) == if count_of(old(self).entries@, peer, cat)
                + n <= u64::MAX {
                count_of(old(self).entries@, peer, cat) + n
            } else {
                u64::MAX as int
            },
            forall|p: u64, c: ExpectedReply|
                !(p == peer && c == cat) ==> count_of(final(self).entries@, p, c) == count_of(
                    old(self).entries@,
                    p,
                    c,
                ),
    {
        let deadline: u64 = if now <= u64::MAX - self.grace {
            now + self.grace
        } else {
            u64::MAX
        };
        match self.find(peer, cat) {
            Some(i) => {
                let ghost s = self.entries@;
                let prior: u64 = self.entries[i].count;
                let merged: u64 = if prior <= u64::MAX - n {
                    prior + n
                } else {
                    u64::MAX
                };
                let e = Expectation { peer, category: cat, count: merged, deadline };
                self.entries.set(i, e);
                proof {
                    lemma_count_update(s, i as int, e, peer, cat);
                    assert forall|p: u64, c: ExpectedReply| !(p == peer && c == cat) implies count_of(
                        self.entries@,
                        p,
                        c,
                    ) == count_of(s, p, c) by {
                        lemma_count_update_other(s, i as int, e, p, c);
                    }
                }
            },
            None => {
                let ghost s = self.entries@;
                let e = Expectation { peer, category: cat, count: n, deadline };
                self.entries.push(e);
                proof {
                    lemma_count_push(s, e, peer, cat);
                    assert(count_of(self.entries@, peer, cat) == n);
                    assert forall|p: u64, c: ExpectedReply| !(p == peer && c == cat) implies count_of(
                        self.entries@,
                        p,
                        c,
                    ) == count_of(s, p, c) by {
                        lemma_count_push_other(s, e, p, c);
                    }
                }
            },
        }
    }

    /// Records that `peer` answered `n` replies of category `cat`; the
    /// outstanding count clamps at zero.
    pub fn received(&mut self, peer: u64, n: u64, cat: ExpectedReply)
        requires
            old(self).wf(),
        ensures
            final(self).wf(),
            final(self).grace == old(self).grace,
            count_of(final(self).entries@, peer, cat) == if count_of(old(self).entries@, peer, cat)
                >= n {
                count_of(old(self).entries@, peer, cat) - n
            } else {
                0
            },
            forall|p: u64, c: ExpectedReply|
                !(p == peer && c == cat) ==> count_of(final(self).entries@, p, c) == count_of(
                    old(self).entries@,
                    p,
                    c,
                ),
    {
        match self.find(peer, cat) {
            Some(i) => {
                let ghost s = self.entries@;
                let prior: u64 = self.entries[i].count;
                let rest: u64 = if prior >= n {
                    prior - n
                } else {
                    0
                };
                let e = Expectation {
                    peer,
                    category: cat,
                    count: rest,
                    deadline: self.entries[i].deadline,
                };
                self.entries.set(i, e);
                proof {
                    lemma_count_update(s, i as int, e, peer, cat);
                    assert forall|p: u64, c: ExpectedReply| !(p == peer && c == cat) implies count_of(
                        self.entries@,
                        p,
                        c,
                    ) == count_of(s, p, c) by {
                        lemma_count_update_other(s, i as int, e, p, c);
                    }
                }
            },
            None => {},
        }
    }

    /// Whether `peer` still owes replies of category `cat`.
    pub fn is_busy_with(&self, peer: u64, cat: ExpectedReply) -> (r: bool)
        ensures
            r == (count_of(self.entries@, peer, cat) > 0),
    {
        match self.find(peer, cat) {
            Some(i) => self.entries[i].count > 0,
            None => false,
        }
    }

    /// Expires stuck expectations at instant `now`: every peer with an
    /// expired expectation loses all its entries and is reported, so
    /// that the caller may drop the connection.
    #[verifier::loop_isolation(false)]
    pub fn check(&mut self, now: u64) -> (expired_peers: Vec<u64>)
        requires
            old(self).wf(),
        ensures
            final(self).wf(),
            final(self).grace == old(self).grace,
            forall|i: int|
                0 <= i < final(self).entries@.len() ==> !expired(
                    #[trigger] final(self).entries@[i],
                    now,
                ),
            forall|i: int|
                0 <= i < final(self).entries@.len() ==> holds_expectation(
                    old(self).entries@,
                    #[trigger] final(self).entries@[i],
                ),
            forall|k: int|
                0 <= k < expired_peers@.len() ==> has_expired_entry(
                    old(self).entries@,
                    #[trigger] expired_peers@[k],
                    now,
                ),
            forall|j: int|
                0 <= j < old(self).entries@.len() && expired(#[trigger] old(self).entries@[j], now)
                    ==> expired_peers@.contains(old(self).entries@[j].peer),
            forall|j: int|
                0 <= j < old(self).entries@.len() && !has_expired_entry(
                    old(self).entries@,
                    old(self).entries@[j].peer,
                    now,
                ) ==> holds_expectation(final(self).entries@, #[trigger] old(self).entries@[j]),
    {
        let ghost s = self.entries@;
        let mut bad: Vec<u64> = Vec::new();
        let mut i: usize = 0;
        while i < self.entries.len()
            invariant
                i <= s.len(),
                self.entries@ == s,
                forall|k: int|
                    0 <= k < bad@.len() ==> has_expired_entry(s, #[trigger] bad@[k], now),
                forall|j: int|
                    0 <= j < i && expired(#[trigger] s[j], now) ==> bad@.contains(s[j].peer),
            decreases s.len() - i,
        {
            let e_count = self.entries[i].count;
            let e_deadline = self.entries[i].deadline;
            if e_count > 0 && e_deadline < now {
                let p = self.entries[i].peer;
                let ghost b0 = bad@;
                bad.push(p);
                proof {
                    assert(bad@ == b0.push(p));
                    assert(has_expired_entry(s, p, now)) by {
                        assert(s[i as int].peer == p && expired(s[i as int], now));
                    }
                    assert forall|j: int|
                        0 <= j < i + 1 && expired(#[trigger] s[j], now) implies bad@.contains(
                        s[j].peer,
                    ) by {
                        if j < i {
                            assert(b0.contains(s[j].peer));
                            let k = choose|k: int| 0 <= k < b0.len() && b0[k] == s[j].peer;
                            assert(bad@[k] == s[j].peer);
                        } else {
                            assert(bad@[bad@.len() - 1] == s[j].peer);
                        }
                    }
                }
            }
            i += 1;
        }
        let mut kept: Vec<Expectation> = Vec::new();
        let ghost mut src: Seq<int> = Seq::empty();
        let mut i: usize = 0;
        while i < self.entries.len()
            invariant
                i <= s.len(),
                self.entries@ == s,
                retained_from(s, bad@, kept@, src, i as int),
                forall|j: int|
                    0 <= j < i && !bad@.contains(s[j].peer) ==> holds_expectation(
                        kept@,
                        #[trigger] s[j],
                    ),
            decreases s.len() - i,
        {
            let peer_here = self.entries[i].peer;
            if !peer_listed(&bad, peer_here) {
                let cur = &self.entries[i];
                let e = Expectation {
                    peer: cur.peer,
                    category: cur.category,
                    count: cur.count,
                    deadline: cur.deadline,
                };
                let ghost k0 = kept@;
                let ghost s0 = src;
                proof {
                    assert(e == s[i as int]);
                    assert(!bad@.contains(s[i as int].peer));
                    src = src.push(i as int);
                }
                kept.push(e);
                proof {
                    assert(kept@ == k0.push(e));
                    assert(src == s0.push(i as int));
                    assert(retained_from(s, bad@, kept@, src, i + 1)) by {
                        assert forall|p: int| 0 <= p < kept@.len() implies #[trigger] kept@[p]
                            == s[src[p]] && !bad@.contains(s[src[p]].peer) by {
                            if p < k0.len() {
                                assert(kept@[p] == k0[p]);
                                assert(src[p] == s0[p]);
                                assert(k0[p] == s[s0[p]] && !bad@.contains(s[s0[p]].peer));
                            } else {
                                assert(p == k0.len());
                                assert(kept@[p] == e);
                                assert(src[p] == i as int);
                            }
                        }
                    }
                    assert forall|j: int|
                        0 <= j < i + 1 && !bad@.contains(s[j].peer) implies holds_expectation(
                        kept@,
                        #[trigger] s[j],
                    ) by {
                        if j < i {
                            let k = choose|k: int| 0 <= k < k0.len() && k0[k] == s[j];
                            assert(kept@[k] == k0[k]);
                        } else {
                            assert(kept@[kept@.len() - 1] == s[j]);
                        }
                    }
                }
            } else {
                proof {
                    assert(bad@.contains(s[i as int].peer));
                }
            }
            i += 1;
        }
        self.entries = kept;
        proof {
            assert forall|p: int, q: int| 0 <= p < q < self.entries@.len() implies !(
            #[trigger] self.entries@[p].peer == #[trigger] self.entries@[q].peer
                && self.entries@[p].category == self.entries@[q].category) by {
                assert(self.entries@[p] == s[src[p]] && self.entries@[q] == s[src[q]]);
                assert(0 <= src[p] < src[q] < s.len());
            }
            assert forall|i2: int| 0 <= i2 < self.entries@.len() implies !expired(
                #[trigger] self.entries@[i2],
                now,
            ) by {
                let j = src[i2];
                assert(self.entries@[i2] == s[j] && !bad@.contains(s[j].peer));
                if expired(s[j], now) {
                    assert(bad@.contains(s[j].peer));
                }
            }
            assert forall|j: int|
                0 <= j < s.len() && !has_expired_entry(s, s[j].peer, now) implies holds_expectation(
                self.entries@,
                #[trigger] s[j],
            ) by {
                if bad@.contains(s[j].peer) {
                    let k = choose|k: int| 0 <= k < bad@.len() && bad@[k] == s[j].peer;
                    assert(has_expired_entry(s, bad@[k], now));
                }
            }
            assert forall|i2: int| 0 <= i2 < self.entries@.len() implies holds_expectation(
                s,
                #[trigger] self.entries@[i2],
            ) by {
                let j = src[i2];
                assert(0 <= j < s.len() && s[j] == self.entries@[i2]);
            }
        }
        bad
    }
}

/// Whether `peers` lists `p`.
fn peer_listed(peers: &Vec<u64>, p: u64) -> (r: bool)
    ensures
        r == peers@.contains(p),
{
    let mut i: usize = 0;
    while i < peers.len()
        invariant
            i <= peers@.len(),
            forall|j: int| 0 <= j < i ==> peers@[j] != p,
        decreases peers@.len() - i,
    {
        if peers[i] == p {
            proof {
                assert(peers@[i as int] == p);
            }
            return true;
        }
        i += 1;
    }
    false
}

proof fn lemma_count_update(s: Seq<Expectation>, i: int, e: Expectation, peer: u64, cat: ExpectedReply)
    requires
        tracker_wf(s),
        0 <= i < s.len(),
        s[i].peer == peer && s[i].category == cat,
        e.peer == peer && e.category == cat,
    ensures
        count_of(s.update(i, e), peer, cat) == e.count as int,
        tracker_wf(s.update(i, e)),
    decreases s.len(),
{
    if i == 0 {
        assert(s.update(0, e)[0] == e);
    } else {
        assert(s.update(i, e)[0] == s[0]);
        assert(!(s[0].peer == peer && s[0].category == cat));
        assert(s.update(i, e).drop_first() =~= s.drop_first().update(i - 1, e));
        lemma_count_update(s.drop_first(), i - 1, e, peer, cat);
    }
}

proof fn lemma_count_update_other(s: Seq<Expectation>, i: int, e: Expectation, p: u64, c: ExpectedReply)
    requires
        0 <= i < s.len(),
        s[i].peer == e.peer && s[i].category == e.category,
        !(p == e.peer && c == e.category),
    ensures
        count_of(s.update(i, e), p, c) == count_of(s, p, c),
    decreases s.len(),
{
    if i == 0 {
        assert(s.update(0, e)[0] == e);
        assert(s.update(0, e).drop_first() =~= s.drop_first());
    } else {
        assert(s.update(i, e)[0] == s[0]);
        assert(s.update(i, e).drop_first() =~= s.drop_first().update(i - 1, e));
        lemma_count_update_other(s.drop_first(), i - 1, e, p, c);
    }
}

proof fn lemma_count_push(s: Seq<Expectation>, e: Expectation, peer: u64, cat: ExpectedReply)
    requires
        e.peer == peer && e.category == cat,
        count_of(s, peer, cat) == 0,
        forall|i: int|
            0 <= i < s.len() ==> !(#[trigger] s[i].peer == peer && s[i].category == cat),
    ensures
        count_of(s.push(e), peer, cat) == e.count as int,
    decreases s.len(),
{
    if s.len() == 0 {
        assert(s.push(e)[0] == e);
    } else {
        assert(s.push(e)[0] == s[0]);
        assert(!(s[0].peer == peer && s[0].category == cat));
        assert(s.push(e).drop_first() =~= s.drop_first().push(e));
        assert forall|i: int|
            0 <= i < s.drop_first().len() implies !(#[trigger] s.drop_first()[i].peer == peer
            && s.drop_first()[i].category == cat) by {
            assert(s.drop_first()[i] == s[i + 1]);
        }
        lemma_count_push(s.drop_first(), e, peer, cat);
    }
}

proof fn lemma_count_push_other(s: Seq<Expectation>, e: Expectation, p: u64, c: ExpectedReply)
    requires
        !(p == e.peer && c == e.category),
    ensures
        count_of(s.push(e), p, c) == count_of(s, p, c),
    decreases s.len(),
{
    if s.len() == 0 {
        assert(s.push(e)[0] == e);
        assert(s.push(e).drop_first() =~= s);
    } else {
        assert(s.push(e)[0] == s[0]);
        assert(s.push(e).drop_first() =~= s.drop_first().push(e));
        lemma_count_push_other(s.drop_first(), e, p, c);
    }
}

} // verus!
