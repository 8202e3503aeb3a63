//! The per-peer reconciliation session: poll, IBLT exchange, content
//! fetch and store admission, with an expectation tracker for timeouts.
//!
//! The outside work — transport sends and receives, the IBLT encode,
//! subtract and peeling decode, and the sketch-based difference
//! estimate — is handed in and out as events and actions; every
//! decision between them is made here.

use vstd::prelude::*;
use vstd::arithmetic::power::{pow, lemma_pow_increases};
use std::collections::HashMap;
use crate::codec::{bytes_eq, copy_bytes};
use crate::content::{Content, content_digest, same_content};
use crate::key::ContentKey;
use crate::store::{
    ContentStore, StoreError, entry_wf, has_digest, holds_entry, root_for, sum_footprint,
};
use crate::tracker::{
    ExpectedReply, TimeoutTracker, count_of, expired, has_expired_entry, holds_expectation,
};

verus! {

broadcast use vstd::std_specs::hash::group_hash_axioms;

/// The smallest IBLT ever exchanged.
pub const MINIMUM_IBLT_SIZE: u32 = 100;

/// The largest IBLT ever exchanged: the minimum scaled by 65536.
pub const MAXIMUM_IBLT_SIZE: u32 = 100 * 65536;

/// The IBLT size the updater settles on: starting from `s`, quadruple
/// while below the maximum and below the estimated difference.
pub open spec fn grown_iblt_size(s: int, diff: int) -> int
    decreases (if s < MAXIMUM_IBLT_SIZE as int {
        MAXIMUM_IBLT_SIZE as int - s
    } else {
        0
    }),
{
    if 1 <= s < MAXIMUM_IBLT_SIZE as int && s < diff {
        grown_iblt_size(s * 4, diff)
    } else {
        s
    }
}

/// Chooses the IBLT size for an estimated symmetric-difference size:
/// the smallest power-of-four multiple of the minimum size that
/// reaches the estimate, capped at the maximum.
#[verifier::loop_isolation(false)]
pub fn choose_iblt_size(diff: u32) -> (r: u32)
    ensures
        r == grown_iblt_size(MINIMUM_IBLT_SIZE as int, diff as int),
        MINIMUM_IBLT_SIZE <= r <= MAXIMUM_IBLT_SIZE,
        exists|k: nat| k <= 8 && r == (MINIMUM_IBLT_SIZE as int) * pow(4, k),
        diff <= MAXIMUM_IBLT_SIZE ==> r >= diff,
        diff > MAXIMUM_IBLT_SIZE ==> r == MAXIMUM_IBLT_SIZE,
{
    let mut size: u32 = MINIMUM_IBLT_SIZE;
    let ghost mut k: nat = 0;
    proof {
        reveal_with_fuel(pow, 10);
        assert(pow(4, 0) == 1);
        assert(pow(4, 1) == 4);
        assert(pow(4, 2) == 16);
        assert(pow(4, 3) == 64);
        assert(pow(4, 4) == 256);
        assert(pow(4, 5) == 1024);
        assert(pow(4, 6) == 4096);
        assert(pow(4, 7) == 16384);
        assert(pow(4, 8) == 65536);
        assert((MAXIMUM_IBLT_SIZE as int) == (MINIMUM_IBLT_SIZE as int) * pow(4, 8));
    }
    while size < MAXIMUM_IBLT_SIZE && size < diff
        invariant
            MINIMUM_IBLT_SIZE <= size <= MAXIMUM_IBLT_SIZE,
            size as int == (MINIMUM_IBLT_SIZE as int) * pow(4, k),
            k <= 8,
            grown_iblt_size(size as int, diff as int) == grown_iblt_size(
                MINIMUM_IBLT_SIZE as int,
                diff as int,
            ),
            (MAXIMUM_IBLT_SIZE as int) == (MINIMUM_IBLT_SIZE as int) * pow(4, 8),
        decreases MAXIMUM_IBLT_SIZE as int - size,
    {
        proof {
            if k >= 8 {
                lemma_pow_increases(4, 8, k);
                assert(false);
            }
            vstd::arithmetic::power::lemma_pow_adds(4, 1, k);
            assert(pow(4, (1 + k) as nat) == pow(4, 1) * pow(4, k));
            lemma_pow_increases(4, (k + 1) as nat, 8);
        }
        size = size * 4;
        proof {
            k = k + 1;
        }
    }
    size
}

/// The poll announcing a keyset: the sender's tip, its sketch of the
/// keyset, and the keyset's cardinality.
pub struct PollContentMessage {
    /// the sender's chain tip
    pub tip: Vec<u8>,
    /// the sketch of the sender's keyset
    pub sketch: Vec<u8>,
    /// how many keys the sketch summarizes
    pub size: u32,
}

impl PollContentMessage {
    /// A copy of this poll.
    pub fn duplicate(&self) -> (r: PollContentMessage)
        ensures
            r.tip@ == self.tip@,
            r.sketch@ == self.sketch@,
            r.size == self.size,
    {
        PollContentMessage {
            tip: copy_bytes(self.tip.as_slice()),
            sketch: copy_bytes(self.sketch.as_slice()),
            size: self.size,
        }
    }
}

/// One decoded cell set of a subtracted IBLT, as the peeling decoder
/// reports it.
pub enum IbltDecodeEntry {
    /// a key only we hold
    Inserted(ContentKey),
    /// a key only the peer holds
    Deleted(ContentKey),
    /// the decoder got stuck: the IBLT was too small
    Failed,
}

/// Whether the whole decode succeeded.
pub open spec fn decode_ok(s: Seq<IbltDecodeEntry>) -> bool {
    forall|i: int| 0 <= i < s.len() ==> !(#[trigger] s[i] is Failed)
}

/// The digests of the keys the peer holds and we lack, in decode
/// order.
pub open spec fn deleted_digests(s: Seq<IbltDecodeEntry>) -> Seq<Seq<u8>>
    decreases s.len(),
{
    if s.len() == 0 {
        Seq::empty()
    } else {
        let rest = deleted_digests(s.drop_first());
        match s[0] {
            IbltDecodeEntry::Deleted(key) => seq![key.digest@] + rest,
            _ => rest,
        }
    }
}

/// The views of a list of byte vectors.
pub open spec fn views_of(s: Seq<Vec<u8>>) -> Seq<Seq<u8>> {
    s.map_values(|v: Vec<u8>| v@)
}

proof fn lemma_deleted_digests_snoc(s: Seq<IbltDecodeEntry>, e: IbltDecodeEntry)
    ensures
        deleted_digests(s.push(e)) == deleted_digests(s) + (match e {
            IbltDecodeEntry::Deleted(key) => seq![key.digest@],
            _ => Seq::empty(),
        }),
    decreases s.len(),
{
    if s.len() == 0 {
        assert(s.push(e)[0] == e);
        assert(s.push(e).drop_first() =~= s);
        assert(deleted_digests(s) + (match e {
            IbltDecodeEntry::Deleted(key) => seq![key.digest@],
            _ => Seq::<Seq<u8>>::empty(),
        }) =~= (match e {
            IbltDecodeEntry::Deleted(key) => seq![key.digest@],
            _ => Seq::<Seq<u8>>::empty(),
        }));
    } else {
        assert(s.push(e)[0] == s[0]);
        assert(s.push(e).drop_first() =~= s.drop_first().push(e));
        lemma_deleted_digests_snoc(s.drop_first(), e);
        match s[0] {
            IbltDecodeEntry::Deleted(key) => {
                assert(seq![key.digest@] + (deleted_digests(s.drop_first()) + (match e {
                    IbltDecodeEntry::Deleted(k2) => seq![k2.digest@],
                    _ => Seq::<Seq<u8>>::empty(),
                })) =~= (seq![key.digest@] + deleted_digests(s.drop_first())) + (match e {
                    IbltDecodeEntry::Deleted(k2) => seq![k2.digest@],
                    _ => Seq::<Seq<u8>>::empty(),
                }));
            },
            _ => {},
        }
    }
}

/// Walks the decoded entries of a subtracted IBLT. On a failed decode
/// the round is abandoned: `None`, and no request is made. Otherwise
/// the digests of the keys the peer holds and we lack, in order.
pub fn collect_missing(entries: &Vec<IbltDecodeEntry>) -> (r: Option<Vec<Vec<u8>>>)
    ensures
        (r is Some <==> decode_ok(entries@)),
        (r matches Some(ids) ==> views_of(ids@) == deleted_digests(entries@)),
{
    let mut ids: Vec<Vec<u8>> = Vec::new();
    let mut i: usize = 0;
    proof {
        assert(entries@.take(0) =~= Seq::empty());
        assert(views_of(ids@) =~= deleted_digests(entries@.take(0)));
    }
    while i < entries.len()
        invariant
            i <= entries@.len(),
            decode_ok(entries@.take(i as int)),
            views_of(ids@) == deleted_digests(entries@.take(i as int)),
        decreases entries@.len() - i,
    {
        proof {
            lemma_deleted_digests_snoc(entries@.take(i as int), entries@[i as int]);
            assert(entries@.take(i + 1) =~= entries@.take(i as int).push(entries@[i as int]));
        }
        let ghost prev_ids = ids@;
        match &entries[i] {
            IbltDecodeEntry::Deleted(key) => {
                ids.push(copy_bytes(key.digest.as_slice()));
                proof {
                    assert(views_of(ids@) =~= views_of(prev_ids).push(
                        entries@[i as int]->Deleted_0.digest@,
                    ));
                }
            },
            IbltDecodeEntry::Inserted(_) => {
            },
            IbltDecodeEntry::Failed => {
                proof {
                    assert(entries@[i as int] is Failed);
                    assert(!decode_ok(entries@));
                }
                return None;
            },
        }
        proof {
            assert forall|j: int| 0 <= j < i + 1 implies !(#[trigger] entries@.take(i + 1)[j]
                is Failed) by {
                assert(entries@.take(i + 1)[j] == entries@[j]);
                if j < i {
                    assert(entries@.take(i as int)[j] == entries@[j]);
                }
            }
        }
        i += 1;
    }
    proof {
        assert(entries@.take(entries@.len() as int) =~= entries@);
    }
    Some(ids)
}

/// What to do with an inbound poll.
pub enum PollAction {
    /// the poll answers ours and every tip matches: estimate the
    /// difference from the two sketches and answer with an IBLT
    Reconcile(PollContentMessage, PollContentMessage),
    /// the poll is the peer's own opening: answer by starting a poll
    StartPoll,
    /// tips differ, or no tip is known yet: stay silent this round
    Ignore,
}

/// Whether `c` is a copy of a stored record whose digest was asked
/// for.
pub open spec fn served_from(entries: Seq<crate::store::StoredContent>, ids: Seq<Vec<u8>>, c: Content) -> bool {
    exists|i: int, j: int|
        #![trigger entries[i], ids[j]]
        0 <= i < entries.len() && 0 <= j < ids.len() && entries[i].key.digest@ == ids[j]@
            && same_content(&c, &entries[i].content)
}

/// Whether some reply in `r` answers the record stored under digest
/// `d`.
pub open spec fn answers_digest(r: Seq<Content>, entries: Seq<crate::store::StoredContent>, d: Seq<u8>) -> bool {
    exists|k: int, i: int|
        #![trigger r[k], entries[i]]
        0 <= k < r.len() && 0 <= i < entries.len() && entries[i].key.digest@ == d && same_content(
            &r[k],
            &entries[i].content,
        )
}

/// The digests of the requested records the store holds, in request
/// order.
pub open spec fn held_digests(entries: Seq<crate::store::StoredContent>, ids: Seq<Vec<u8>>) -> Seq<
    Seq<u8>,
>
    decreases ids.len(),
{
    if ids.len() == 0 {
        Seq::empty()
    } else {
        (if has_digest(entries, ids[0]@) {
            seq![ids[0]@]
        } else {
            Seq::<Seq<u8>>::empty()
        }) + held_digests(entries, ids.drop_first())
    }
}

/// The digest of each reply, in reply order.
pub open spec fn reply_digests(r: Seq<Content>) -> Seq<Seq<u8>> {
    r.map_values(|c: Content| content_digest(c.data@, c.funder@))
}

proof fn lemma_held_digests_snoc(
    entries: Seq<crate::store::StoredContent>,
    ids: Seq<Vec<u8>>,
    id: Vec<u8>,
)
    ensures
        held_digests(entries, ids.push(id)) == held_digests(entries, ids) + (if has_digest(
            entries,
            id@,
        ) {
            seq![id@]
        } else {
            Seq::<Seq<u8>>::empty()
        }),
    decreases ids.len(),
{
    let tail = if has_digest(entries, id@) {
        seq![id@]
    } else {
        Seq::<Seq<u8>>::empty()
    };
    if ids.len() == 0 {
        assert(ids.push(id)[0] == id);
        assert(ids.push(id).drop_first() =~= ids);
        assert(held_digests(entries, ids) + tail =~= tail);
    } else {
        assert(ids.push(id)[0] == ids[0]);
        assert(ids.push(id).drop_first() =~= ids.drop_first().push(id));
        lemma_held_digests_snoc(entries, ids.drop_first(), id);
        if has_digest(entries, ids[0]@) {
            assert(seq![ids[0]@] + (held_digests(entries, ids.drop_first()) + tail) =~= (seq![
                ids[0]@,
            ] + held_digests(entries, ids.drop_first())) + tail);
        }
    }
}

/// The per-peer reconciliation sessions.
pub struct Updater {
    /// the poll we sent to each peer and still wait on
    pub poll_asked: HashMap<u64, PollContentMessage>,
    /// the outstanding expectations against each peer
    pub tracker: TimeoutTracker,
}

impl Updater {
    /// The tracker is well formed.
    pub open spec fn wf(&self) -> bool {
        self.tracker.wf()
    }

    /// A fresh updater with no sessions.
    pub fn new(grace: u64) -> (r: Updater)
        ensures
            r.wf(),
            r.poll_asked@ == Map::<u64, PollContentMessage>::empty(),
            r.tracker.entries@.len() == 0,
            r.tracker.grace == grace,
    {
        Updater { poll_asked: HashMap::new(), tracker: TimeoutTracker::new(grace) }
    }

    /// Starts a poll toward `peer` from a store snapshot: remember the
    /// poll, expect one reply, and return the message to send. Without
    /// a tip there is nothing to announce.
    pub fn poll_content(
        &mut self,
        peer: u64,
        tip: Option<Vec<u8>>,
        sketch: Vec<u8>,
        nkeys: u32,
        now: u64,
    ) -> (r: Option<PollContentMessage>)
        requires
            old(self).wf(),
        ensures
            final(self).wf(),
            tip is None ==> r is None && *final(self) == *old(self),
            (tip matches Some(t) ==> r matches Some(m) && m.tip@ == t@ && m.sketch@ == sketch@
                && m.size == nkeys),
            (tip is Some ==> final(self).poll_asked@.contains_key(peer)
                && final(self).poll_asked@[peer].tip@ == tip->0@
                && final(self).poll_asked@[peer].sketch@ == sketch@
                && final(self).poll_asked@[peer].size == nkeys
                && final(self).poll_asked@.remove(peer) == old(self).poll_asked@.remove(peer)),
            (tip is Some ==> count_of(final(self).tracker.entries@, peer, ExpectedReply::PollContent)
                == if count_of(old(self).tracker.entries@, peer, ExpectedReply::PollContent) + 1
                <= u64::MAX {
                count_of(old(self).tracker.entries@, peer, ExpectedReply::PollContent) + 1
            } else {
                u64::MAX as int
            }),
            final(self).tracker.grace == old(self).tracker.grace,
            forall|p: u64, c: ExpectedReply|
                !(p == peer && c == ExpectedReply::PollContent) ==> count_of(
                    final(self).tracker.entries@,
                    p,
                    c,
                ) == count_of(old(self).tracker.entries@, p, c),
    {
        match tip {
            Some(t) => {
                let message = PollContentMessage { tip: t, sketch, size: nkeys };
                let saved = message.duplicate();
                self.poll_asked.insert(peer, saved);
                self.tracker.expect(peer, 1, ExpectedReply::PollContent, now);
                proof {
                    assert(self.poll_asked@.remove(peer) =~= old(self).poll_asked@.remove(peer));
                }
                Some(message)
            },
            None => None,
        }
    }

    /// Forgets the stored poll of a disconnected peer; its
    /// expectations run out through the tick check.
    pub fn on_disconnected(&mut self, peer: u64)
        requires
            old(self).wf(),
        ensures
            final(self).wf(),
            final(self).poll_asked@ == old(self).poll_asked@.remove(peer),
            final(self).tracker == old(self).tracker,
    {
        self.poll_asked.remove(&peer);
    }

    /// Decides what an inbound poll means. A reply to our poll with
    /// every tip equal asks for reconciliation; a reply with a tip
    /// mismatch ends the round; a poll we never asked for is the
    /// peer's opening and is answered by polling it back.
    pub fn on_poll_content(
        &mut self,
        peer: u64,
        poll: PollContentMessage,
        our_tip: Option<Vec<u8>>,
    ) -> (r: PollAction)
        requires
            old(self).wf(),
        ensures
            final(self).wf(),
            (!old(self).poll_asked@.contains_key(peer) ==> r is StartPoll
                && final(self).poll_asked@ == old(self).poll_asked@
                && final(self).tracker == old(self).tracker),
            (old(self).poll_asked@.contains_key(peer)
                ==> final(self).poll_asked@ == old(self).poll_asked@.remove(peer)
                && count_of(final(self).tracker.entries@, peer, ExpectedReply::PollContent)
                == if count_of(old(self).tracker.entries@, peer, ExpectedReply::PollContent) >= 1 {
                count_of(old(self).tracker.entries@, peer, ExpectedReply::PollContent) - 1
            } else {
                0
            }),
            (old(self).poll_asked@.contains_key(peer) && (our_tip matches Some(t)
                && t@ == old(self).poll_asked@[peer].tip@
                && old(self).poll_asked@[peer].tip@ == poll.tip@) ==> (r matches PollAction::Reconcile(q, p)
                && q == old(self).poll_asked@[peer] && p == poll)),
            (old(self).poll_asked@.contains_key(peer) && !(our_tip matches Some(t)
                && t@ == old(self).poll_asked@[peer].tip@
                && old(self).poll_asked@[peer].tip@ == poll.tip@) ==> r is Ignore),
            final(self).tracker.grace == old(self).tracker.grace,
            forall|p: u64, c: ExpectedReply|
                !(p == peer && c == ExpectedReply::PollContent) ==> count_of(
                    final(self).tracker.entries@,
                    p,
                    c,
                ) == count_of(old(self).tracker.entries@, p, c),
    {
        match self.poll_asked.remove(&peer) {
            Some(question) => {
                self.tracker.received(peer, 1, ExpectedReply::PollContent);
                match our_tip {
                    Some(t) => {
                        if bytes_eq(t.as_slice(), question.tip.as_slice()) && bytes_eq(
                            question.tip.as_slice(),
                            poll.tip.as_slice(),
                        ) {
                            PollAction::Reconcile(question, poll)
                        } else {
                            PollAction::Ignore
                        }
                    },
                    None => PollAction::Ignore,
                }
            },
            None => {
                proof {
                    if !old(self).poll_asked@.contains_key(peer) {
                        assert(old(self).poll_asked@.remove(peer) =~= old(self).poll_asked@);
                    }
                }
                PollAction::StartPoll
            },
        }
    }

    /// After a reconciliation decision and a difference estimate:
    /// chooses the IBLT size to answer with and expects the peer's
    /// IBLT in return.
    pub fn request_iblt(&mut self, peer: u64, diff: u32, now: u64) -> (r: u32)
        requires
            old(self).wf(),
        ensures
            final(self).wf(),
            final(self).poll_asked@ == old(self).poll_asked@,
            r == grown_iblt_size(MINIMUM_IBLT_SIZE as int, diff as int),
            MINIMUM_IBLT_SIZE <= r <= MAXIMUM_IBLT_SIZE,
            diff <= MAXIMUM_IBLT_SIZE ==> r >= diff,
            count_of(final(self).tracker.entries@, peer, ExpectedReply::Iblt) == if count_of(
                old(self).tracker.entries@,
                peer,
                ExpectedReply::Iblt,
            ) + 1 <= u64::MAX {
                count_of(old(self).tracker.entries@, peer, ExpectedReply::Iblt) + 1
            } else {
                u64::MAX as int
            },
            final(self).tracker.grace == old(self).tracker.grace,
            forall|p: u64, c: ExpectedReply|
                !(p == peer && c == ExpectedReply::Iblt) ==> count_of(
                    final(self).tracker.entries@,
                    p,
                    c,
                ) == count_of(old(self).tracker.entries@, p, c),
    {
        let size = choose_iblt_size(diff);
        self.tracker.expect(peer, 1, ExpectedReply::Iblt, now);
        size
    }

    /// Decides whether an inbound IBLT is worth decoding: only when
    /// its tip is our own. The caller then subtracts our equally sized
    /// IBLT and hands the decode back.
    pub fn on_iblt(&mut self, peer: u64, tip: &[u8], our_tip: Option<Vec<u8>>) -> (r: bool)
        requires
            old(self).wf(),
        ensures
            final(self).wf(),
            final(self).poll_asked@ == old(self).poll_asked@,
            r == (our_tip matches Some(t) && t@ == tip@),
            count_of(final(self).tracker.entries@, peer, ExpectedReply::Iblt) == if count_of(
                old(self).tracker.entries@,
                peer,
                ExpectedReply::Iblt,
            ) >= 1 {
                count_of(old(self).tracker.entries@, peer, ExpectedReply::Iblt) - 1
            } else {
                0
            },
            final(self).tracker.grace == old(self).tracker.grace,
            forall|p: u64, c: ExpectedReply|
                !(p == peer && c == ExpectedReply::Iblt) ==> count_of(
                    final(self).tracker.entries@,
                    p,
                    c,
                ) == count_of(old(self).tracker.entries@, p, c),
    {
        self.tracker.received(peer, 1, ExpectedReply::Iblt);
        match our_tip {
            Some(t) => bytes_eq(tip, t.as_slice()),
            None => false,
        }
    }

    /// Turns a decode into a content request. A failed decode abandons
    /// the round: nothing is requested. A clean decode with nothing
    /// missing asks for nothing either. Otherwise the missing digests
    /// are returned and that many content records are expected.
    pub fn on_decoded(&mut self, peer: u64, entries: &Vec<IbltDecodeEntry>, now: u64) -> (r:
        Option<Vec<Vec<u8>>>)
        requires
            old(self).wf(),
        ensures
            final(self).wf(),
            final(self).poll_asked@ == old(self).poll_asked@,
            (r is Some <==> decode_ok(entries@) && deleted_digests(entries@).len() > 0),
            (r matches Some(ids) ==> views_of(ids@) == deleted_digests(entries@) && count_of(
                final(self).tracker.entries@,
                peer,
                ExpectedReply::Content,
            ) == if count_of(old(self).tracker.entries@, peer, ExpectedReply::Content)
                + ids@.len() <= u64::MAX {
                count_of(old(self).tracker.entries@, peer, ExpectedReply::Content) + ids@.len()
            } else {
                u64::MAX as int
            }),
            (r is None ==> *final(self) == *old(self)),
            final(self).tracker.grace == old(self).tracker.grace,
            forall|p: u64, c: ExpectedReply|
                !(p == peer && c == ExpectedReply::Content) ==> count_of(
                    final(self).tracker.entries@,
                    p,
                    c,
                ) == count_of(old(self).tracker.entries@, p, c),
    {
        match collect_missing(entries) {
            Some(ids) => {
                if ids.len() > 0 {
                    self.tracker.expect(peer, ids.len() as u64, ExpectedReply::Content, now);
                    Some(ids)
                } else {
                    proof {
                        assert(views_of(ids@).len() == 0);
                    }
                    None
                }
            },
            None => None,
        }
    }

    /// Admits an inbound content record into the store; a rejected
    /// record is reported and skipped. When the last expected record
    /// of this peer has arrived, the store is truncated to its budget.
    pub fn on_content(&mut self, peer: u64, content: Content, store: &mut ContentStore) -> (r:
        Result<(), StoreError>)
        requires
            old(self).wf(),
            old(store).wf(),
        ensures
            final(self).wf(),
            final(store).wf(),
            final(self).poll_asked@ == old(self).poll_asked@,
            final(store).headers@ == old(store).headers@,
            final(store).tip == old(store).tip,
            final(store).budget == old(store).budget,
            count_of(final(self).tracker.entries@, peer, ExpectedReply::Content) == if count_of(
                old(self).tracker.entries@,
                peer,
                ExpectedReply::Content,
            ) >= 1 {
                count_of(old(self).tracker.entries@, peer, ExpectedReply::Content) - 1
            } else {
                0
            },
            count_of(final(self).tracker.entries@, peer, ExpectedReply::Content) == 0
                ==> sum_footprint(final(store).entries@) <= final(store).budget,
            (count_of(final(self).tracker.entries@, peer, ExpectedReply::Content) > 0 && (r matches
                Err(e)) ==> *final(store) == *old(store)),
            (count_of(final(self).tracker.entries@, peer, ExpectedReply::Content) > 0 && r is Ok
                ==> has_digest(
                final(store).entries@,
                content_digest(content.data@, content.funder@),
            )),
            (root_for(old(store).headers@, content.block_id@) matches Some(root)
                && content.spv_root() == root && content.funding_ok() && content.footprint() > 0
                && sum_footprint(old(store).entries@) + content.footprint() <= u128::MAX
                ==> r is Ok),
            (r matches Err(e) ==> exists|k: int|
                0 <= k <= old(store).entries@.len() && final(store).entries@ == old(
                    store,
                ).entries@.skip(k)),
            (r is Ok ==> forall|i: int|
                0 <= i < final(store).entries@.len() ==> holds_entry(
                    old(store).entries@,
                    #[trigger] final(store).entries@[i],
                ) || final(store).entries@[i].content == content),
            final(self).tracker.grace == old(self).tracker.grace,
            forall|p: u64, c: ExpectedReply|
                !(p == peer && c == ExpectedReply::Content) ==> count_of(
                    final(self).tracker.entries@,
                    p,
                    c,
                ) == count_of(old(self).tracker.entries@, p, c),
    {
        self.tracker.received(peer, 1, ExpectedReply::Content);
        let ghost s0 = store.entries@;
        let r = store.add_content(content);
        let ghost s1 = store.entries@;
        if !self.tracker.is_busy_with(peer, ExpectedReply::Content) {
            let evicted = store.truncate_to_limit();
            proof {
                assert(exists|k: int| 0 <= k <= s1.len() && store.entries@ == s1.skip(k)) by {
                    assert(store.entries@ == s1.skip(evicted as int));
                }
            }
        } else {
            proof {
                assert(s1.skip(0) =~= s1);
                assert(exists|k: int| 0 <= k <= s1.len() && store.entries@ == s1.skip(k)) by {
                    assert(store.entries@ == s1.skip(0));
                }
            }
        }
        proof {
            if r is Ok {
                assert forall|i: int| 0 <= i < store.entries@.len() implies holds_entry(
                    s0,
                    #[trigger] store.entries@[i],
                ) || store.entries@[i].content == content by {
                    assert(holds_entry(s1, store.entries@[i])) by {
                        let k = choose|k: int|
                            0 <= k <= s1.len() && store.entries@ == s1.skip(k);
                        assert(store.entries@[i] == s1[k + i]);
                    }
                    let j = choose|j: int| 0 <= j < s1.len() && s1[j] == store.entries@[i];
                    if !has_digest(s0, content_digest(content.data@, content.funder@)) {
                        let k0 = choose|k0: int|
                            0 <= k0 <= s0.len() && s1 == s0.insert(k0, s1[k0])
                                && s1[k0].content == content;
                        s0.insert_ensures(k0, s1[k0]);
                        if j != k0 {
                            assert(s1[j] == if j < k0 {
                                s0[j]
                            } else {
                                s0[j - 1]
                            });
                        }
                    }
                }
            }
        }
        r
    }

    /// Serves a content request: every requested digest the store
    /// holds is answered with a copy of its record, one reply per held
    /// digest, in request order; missing digests are skipped silently.
    pub fn on_get(&self, store: &ContentStore, ids: &Vec<Vec<u8>>) -> (r: Vec<Content>)
        requires
            store.wf(),
        ensures
            forall|k: int|
                0 <= k < r@.len() ==> served_from(store.entries@, ids@, #[trigger] r@[k]),
            forall|j: int|
                0 <= j < ids@.len() && has_digest(store.entries@, #[trigger] ids@[j]@)
                    ==> answers_digest(r@, store.entries@, ids@[j]@),
            reply_digests(r@) == held_digests(store.entries@, ids@),
    {
        let mut out: Vec<Content> = Vec::new();
        let mut j: usize = 0;
        proof {
            assert(ids@.take(0) =~= Seq::empty());
            assert(reply_digests(out@) =~= held_digests(store.entries@, ids@.take(0)));
        }
        while j < ids.len()
            invariant
                store.wf(),
                j <= ids@.len(),
                forall|k: int|
                    0 <= k < out@.len() ==> served_from(store.entries@, ids@, #[trigger] out@[k]),
                forall|j2: int|
                    0 <= j2 < j && has_digest(store.entries@, #[trigger] ids@[j2]@)
                        ==> answers_digest(out@, store.entries@, ids@[j2]@),
                reply_digests(out@) == held_digests(store.entries@, ids@.take(j as int)),
            decreases ids@.len() - j,
        {
            let ghost o0 = out@;
            proof {
                lemma_held_digests_snoc(store.entries@, ids@.take(j as int), ids@[j as int]);
                assert(ids@.take(j + 1) =~= ids@.take(j as int).push(ids@[j as int]));
            }
            match store.get_content(ids[j].as_slice()) {
                Some(found) => {
                    let ghost found_snapshot = *found;
                    let copy = found.duplicate();
                    out.push(copy);
                    proof {
                        let i = choose|i: int|
                            0 <= i < store.entries@.len() && store.entries@[i].key.digest@
                                == ids@[j as int]@ && store.entries@[i].content == found_snapshot;
                        assert(out@.last() == copy);
                        assert(served_from(store.entries@, ids@, copy)) by {
                            assert(store.entries@[i].key.digest@ == ids@[j as int]@
                                && same_content(&copy, &store.entries@[i].content));
                        }
                        assert forall|k: int| 0 <= k < out@.len() implies served_from(
                            store.entries@,
                            ids@,
                            #[trigger] out@[k],
                        ) by {
                            if k < o0.len() {
                                assert(out@[k] == o0[k]);
                            } else {
                                assert(out@[k] == copy);
                            }
                        }
                        assert(answers_digest(out@, store.entries@, ids@[j as int]@)) by {
                            assert(out@[out@.len() - 1] == copy && store.entries@[i].key.digest@
                                == ids@[j as int]@ && same_content(
                                &copy,
                                &store.entries@[i].content,
                            ));
                        }
                        assert forall|j2: int|
                            0 <= j2 < j + 1 && has_digest(
                                store.entries@,
                                #[trigger] ids@[j2]@,
                            ) implies answers_digest(out@, store.entries@, ids@[j2]@) by {
                            if j2 < j {
                                let (k, i2) = choose|k: int, i2: int|
                                    #![trigger o0[k], store.entries@[i2]]
                                    0 <= k < o0.len() && 0 <= i2 < store.entries@.len()
                                        && store.entries@[i2].key.digest@ == ids@[j2]@
                                        && same_content(&o0[k], &store.entries@[i2].content);
                                assert(out@[k] == o0[k]);
                            }
                        }
                        // the reply's digest is the requested one: the
                        // stored record is keyed by its own digest and
                        // the copy keeps both fields
                        assert(entry_wf(store.entries@[i]));
                        assert(content_digest(copy.data@, copy.funder@) == ids@[j as int]@);
                        assert(has_digest(store.entries@, ids@[j as int]@)) by {
                            assert(store.entries@[i].key.digest@ == ids@[j as int]@);
                        }
                        assert(reply_digests(out@) =~= held_digests(
                            store.entries@,
                            ids@.take(j + 1),
                        ));
                    }
                },
                None => {
                    proof {
                        assert(!has_digest(store.entries@, ids@[j as int]@));
                        assert(reply_digests(out@) =~= held_digests(
                            store.entries@,
                            ids@.take(j + 1),
                        ));
                    }
                },
            }
            j += 1;
        }
        proof {
            assert(ids@.take(ids@.len() as int) =~= ids@);
        }
        out
    }

    /// The periodic tick: expires stuck expectations and names the
    /// peers whose sessions timed out, so the caller may drop them.
    pub fn tick(&mut self, now: u64) -> (expired_peers: Vec<u64>)
        requires
            old(self).wf(),
        ensures
            final(self).wf(),
            final(self).poll_asked@ == old(self).poll_asked@,
            forall|i: int|
                0 <= i < final(self).tracker.entries@.len() ==> !expired(
                    #[trigger] final(self).tracker.entries@[i],
                    now,
                ),
            forall|i: int|
                0 <= i < final(self).tracker.entries@.len() ==> holds_expectation(
                    old(self).tracker.entries@,
                    #[trigger] final(self).tracker.entries@[i],
                ),
            forall|k: int|
                0 <= k < expired_peers@.len() ==> has_expired_entry(
                    old(self).tracker.entries@,
                    #[trigger] expired_peers@[k],
                    now,
                ),
            forall|j: int|
                0 <= j < old(self).tracker.entries@.len() && expired(
                    #[trigger] old(self).tracker.entries@[j],
                    now,
                ) ==> expired_peers@.contains(old(self).tracker.entries@[j].peer),
            forall|j: int|
                0 <= j < old(self).tracker.entries@.len() && !has_expired_entry(
                    old(self).tracker.entries@,
                    old(self).tracker.entries@[j].peer,
                    now,
                ) ==> holds_expectation(
                    final(self).tracker.entries@,
                    #[trigger] old(self).tracker.entries@[j],
                ),
    {
        self.tracker.check(now)
    }
}

} // verus!
