use biadnet::content::{Content, Transaction, TxOut};
use biadnet::key::ContentKey;
use biadnet::script::funding_script;
use biadnet::store::ContentStore;
use biadnet::tracker::ExpectedReply;
use biadnet::updater::{
    choose_iblt_size, IbltDecodeEntry, PollAction, PollContentMessage, Updater,
    MAXIMUM_IBLT_SIZE, MINIMUM_IBLT_SIZE,
};

// the secp256k1 generator point, compressed
const FUNDER: [u8; 33] = [
    0x02, 0x79, 0xbe, 0x66, 0x7e, 0xf9, 0xdc, 0xbb, 0xac, 0x55, 0xa0, 0x62, 0x95, 0xce, 0x87,
    0x0b, 0x07, 0x02, 0x9b, 0xfc, 0xdb, 0x2d, 0xce, 0x28, 0xd9, 0x59, 0xf2, 0x81, 0x5b, 0x16,
    0xf8, 0x17, 0x98,
];

fn sha256d(bytes: &[u8]) -> Vec<u8> {
    let first = bitcoin_hashes::sha256::Hash::hash(bytes).to_byte_array();
    bitcoin_hashes::sha256::Hash::hash(&first).to_byte_array().to_vec()
}

fn valid_content(data: Vec<u8>, value: u64, store: &mut ContentStore) -> Content {
    let mut raw = vec![0xccu8];
    raw.extend_from_slice(&data);
    let mut block_id = sha256d(&raw);
    block_id[0] ^= 0x55; // any block id; the root is what matters
    let mut content = Content {
        data,
        funding: Transaction { raw: raw.clone(), outputs: Vec::new() },
        block_id,
        spv_proof: Vec::new(),
        funder: FUNDER.to_vec(),
        term: 12,
    };
    let script = funding_script(&FUNDER, &content.digest(), content.term).unwrap();
    content.funding.outputs.push(TxOut { value, script_pubkey: script });
    store.add_header(content.block_id.clone(), sha256d(&raw));
    content
}

#[test]
fn iblt_size_starts_at_the_minimum() {
    assert_eq!(choose_iblt_size(0), MINIMUM_IBLT_SIZE);
    assert_eq!(choose_iblt_size(99), 100);
    assert_eq!(choose_iblt_size(100), 100);
}

#[test]
fn iblt_size_quadruples_until_it_covers_the_estimate() {
    assert_eq!(choose_iblt_size(101), 400);
    assert_eq!(choose_iblt_size(400), 400);
    assert_eq!(choose_iblt_size(401), 1600);
    // the over-estimated round: a reported difference of 500 asks for
    // a 1600-cell table
    assert_eq!(choose_iblt_size(500), 1600);
}

#[test]
fn iblt_size_is_a_power_of_four_multiple_of_the_minimum_and_capped() {
    for diff in [0u32, 1, 99, 100, 101, 5000, 1 << 20, u32::MAX] {
        let size = choose_iblt_size(diff);
        assert!(size >= MINIMUM_IBLT_SIZE);
        assert!(size <= MAXIMUM_IBLT_SIZE);
        let mut quotient = size / MINIMUM_IBLT_SIZE;
        assert_eq!(size % MINIMUM_IBLT_SIZE, 0);
        while quotient > 1 {
            assert_eq!(quotient % 4, 0);
            quotient /= 4;
        }
        if diff <= MAXIMUM_IBLT_SIZE {
            assert!(size >= diff);
        }
    }
    assert_eq!(choose_iblt_size(u32::MAX), MAXIMUM_IBLT_SIZE);
}

#[test]
fn poll_content_needs_a_tip() {
    let mut updater = Updater::new(60);
    assert!(updater.poll_content(1, None, vec![1, 2], 5, 0).is_none());
    let poll = updater.poll_content(1, Some(vec![7u8; 32]), vec![1, 2], 5, 0).unwrap();
    assert_eq!(poll.tip, vec![7u8; 32]);
    assert_eq!(poll.sketch, vec![1, 2]);
    assert_eq!(poll.size, 5);
    assert!(updater.tracker.is_busy_with(1, ExpectedReply::PollContent));
}

#[test]
fn an_unasked_poll_triggers_a_poll_back() {
    let mut updater = Updater::new(60);
    let inbound = PollContentMessage { tip: vec![7u8; 32], sketch: vec![], size: 0 };
    let action = updater.on_poll_content(3, inbound, Some(vec![7u8; 32]));
    assert!(matches!(action, PollAction::StartPoll));
}

#[test]
fn tip_mismatch_ends_the_round_silently() {
    let mut updater = Updater::new(60);
    let our_tip = vec![7u8; 32];
    let their_tip = vec![8u8; 32];
    updater.poll_content(3, Some(our_tip.clone()), vec![], 0, 0).unwrap();
    let reply = PollContentMessage { tip: their_tip, sketch: vec![], size: 0 };
    let action = updater.on_poll_content(3, reply, Some(our_tip));
    assert!(matches!(action, PollAction::Ignore));
    assert!(!updater.tracker.is_busy_with(3, ExpectedReply::PollContent));
}

#[test]
fn matching_tips_ask_for_reconciliation() {
    let mut updater = Updater::new(60);
    let tip = vec![7u8; 32];
    updater.poll_content(3, Some(tip.clone()), vec![1], 2, 0).unwrap();
    let reply = PollContentMessage { tip: tip.clone(), sketch: vec![9], size: 4 };
    match updater.on_poll_content(3, reply, Some(tip)) {
        PollAction::Reconcile(ours, theirs) => {
            assert_eq!(ours.sketch, vec![1]);
            assert_eq!(ours.size, 2);
            assert_eq!(theirs.sketch, vec![9]);
            assert_eq!(theirs.size, 4);
        }
        _ => panic!("expected reconciliation"),
    }
    let size = updater.request_iblt(3, 500, 0);
    assert_eq!(size, 1600);
    assert!(updater.tracker.is_busy_with(3, ExpectedReply::Iblt));
}

#[test]
fn an_iblt_at_a_foreign_tip_is_dropped() {
    let mut updater = Updater::new(60);
    assert!(!updater.on_iblt(4, &[1u8; 32], Some(vec![2u8; 32])));
    assert!(!updater.on_iblt(4, &[1u8; 32], None));
    assert!(updater.on_iblt(4, &[1u8; 32], Some(vec![1u8; 32])));
}

#[test]
fn a_failed_decode_abandons_the_round_without_a_request() {
    let mut updater = Updater::new(60);
    // an undersized table: many true differences, the peeling gets stuck
    let mut entries = Vec::new();
    for i in 0..200u32 {
        let mut digest = vec![0u8; 32];
        digest[0] = (i % 256) as u8;
        digest[1] = (i / 256) as u8;
        entries.push(IbltDecodeEntry::Deleted(ContentKey::new(&digest, i)));
    }
    entries.push(IbltDecodeEntry::Failed);
    assert!(updater.on_decoded(9, &entries, 0).is_none());
    assert!(!updater.tracker.is_busy_with(9, ExpectedReply::Content));
}

#[test]
fn a_clean_decode_requests_the_missing_digests() {
    let mut updater = Updater::new(60);
    let k1 = ContentKey::new(&[1u8; 32], 10);
    let k2 = ContentKey::new(&[2u8; 32], 20);
    let k3 = ContentKey::new(&[3u8; 32], 30);
    let entries = vec![
        IbltDecodeEntry::Deleted(k1),
        IbltDecodeEntry::Inserted(k2),
        IbltDecodeEntry::Deleted(k3),
    ];
    let ids = updater.on_decoded(9, &entries, 0).unwrap();
    assert_eq!(ids, vec![vec![1u8; 32], vec![3u8; 32]]);
    assert!(updater.tracker.is_busy_with(9, ExpectedReply::Content));

    // nothing missing: nothing requested
    let nothing = vec![IbltDecodeEntry::Inserted(ContentKey::new(&[4u8; 32], 4))];
    assert!(updater.on_decoded(10, &nothing, 0).is_none());
}

#[test]
fn expired_expectations_name_the_peer() {
    let mut updater = Updater::new(60);
    updater.poll_content(5, Some(vec![7u8; 32]), vec![], 0, 100).unwrap();
    assert!(updater.tick(120).is_empty());
    let expired = updater.tick(161);
    assert_eq!(expired, vec![5]);
    assert!(!updater.tracker.is_busy_with(5, ExpectedReply::PollContent));
}

/// The happy round: A holds {k1,k2}, B holds {k2,k3}, both at tip T.
/// One poll, IBLT and get exchange in each direction leaves both with
/// {k1,k2,k3}. The IBLT subtract and decode themselves live outside;
/// the test plays their decode back as events.
#[test]
fn happy_reconciliation_syncs_both_stores() {
    let tip = vec![0x77u8; 32];
    let mut store_a = ContentStore::new(1_000_000);
    let mut store_b = ContentStore::new(1_000_000);
    store_a.set_tip(tip.clone());
    store_b.set_tip(tip.clone());

    let c1 = valid_content(vec![1; 8], 50_000, &mut store_a);
    let c2a = valid_content(vec![2; 8], 60_000, &mut store_a);
    let c2b = valid_content(vec![2; 8], 60_000, &mut store_b);
    let c3 = valid_content(vec![3; 8], 70_000, &mut store_b);
    let d1 = c1.digest();
    let d2 = c2a.digest();
    let d3 = c3.digest();

    // each side's header sync also knows the other side's blocks
    store_b.add_header(c1.block_id.clone(), sha256d(&c1.funding.raw));
    store_a.add_header(c3.block_id.clone(), sha256d(&c3.funding.raw));

    store_a.add_content(c1).unwrap();
    store_a.add_content(c2a).unwrap();
    store_b.add_content(c2b).unwrap();
    store_b.add_content(c3).unwrap();

    let mut updater_a = Updater::new(60);
    let mut updater_b = Updater::new(60);

    // A connects and polls B
    let poll_a = updater_a
        .poll_content(2, store_a.get_tip(), vec![0xaa], store_a.get_nkeys() as u32, 0)
        .unwrap();

    // B never asked A anything: it polls back
    assert!(matches!(
        updater_b.on_poll_content(1, poll_a, store_b.get_tip()),
        PollAction::StartPoll
    ));
    let poll_b = updater_b
        .poll_content(1, store_b.get_tip(), vec![0xbb], store_b.get_nkeys() as u32, 0)
        .unwrap();

    // A sees B's reply at the same tip and answers with an IBLT
    let action = updater_a.on_poll_content(2, poll_b, store_a.get_tip());
    assert!(matches!(action, PollAction::Reconcile(_, _)));
    let estimated_diff = 2u32; // the sketches would report two differences
    let size = updater_a.request_iblt(2, estimated_diff, 0);
    assert_eq!(size, MINIMUM_IBLT_SIZE);

    // B receives A's IBLT at its own tip, subtracts and decodes:
    // it lacks k1 and holds k3 that A lacks
    assert!(updater_b.on_iblt(1, &tip, store_b.get_tip()));
    let decoded_at_b = vec![
        IbltDecodeEntry::Deleted(ContentKey::new(&d1, 0)),
        IbltDecodeEntry::Inserted(ContentKey::new(&d3, 0)),
    ];
    let wanted_by_b = updater_b.on_decoded(1, &decoded_at_b, 0).unwrap();
    assert_eq!(wanted_by_b, vec![d1.clone()]);

    // A serves the request; B admits the content and truncates
    let served = updater_a.on_get(&store_a, &wanted_by_b);
    assert_eq!(served.len(), 1);
    for content in served {
        updater_b.on_content(1, content, &mut store_b).unwrap();
    }
    assert!(!updater_b.tracker.is_busy_with(1, ExpectedReply::Content));

    // the same round runs with the roles swapped: B's IBLT reaches A
    assert!(updater_a.on_iblt(2, &tip, store_a.get_tip()));
    let decoded_at_a = vec![IbltDecodeEntry::Deleted(ContentKey::new(&d3, 0))];
    let wanted_by_a = updater_a.on_decoded(2, &decoded_at_a, 0).unwrap();
    assert_eq!(wanted_by_a, vec![d3.clone()]);
    let served = updater_b.on_get(&store_b, &wanted_by_a);
    assert_eq!(served.len(), 1);
    for content in served {
        updater_a.on_content(2, content, &mut store_a).unwrap();
    }

    // both peers now hold {k1, k2, k3}
    for digest in [&d1, &d2, &d3] {
        assert!(store_a.get_content(digest).is_some());
        assert!(store_b.get_content(digest).is_some());
    }
    assert_eq!(store_a.get_nkeys(), 3);
    assert_eq!(store_b.get_nkeys(), 3);
}

#[test]
fn a_get_for_an_unknown_digest_is_skipped_silently() {
    let updater = Updater::new(60);
    let mut store = ContentStore::new(1_000_000);
    let content = valid_content(vec![5; 8], 40_000, &mut store);
    let digest = content.digest();
    store.add_content(content).unwrap();
    let ids = vec![vec![0u8; 32], digest.clone(), vec![1u8; 32]];
    let served = updater.on_get(&store, &ids);
    assert_eq!(served.len(), 1);
    assert_eq!(served[0].digest(), digest);
}

#[test]
fn get_replies_follow_the_request_order() {
    let updater = Updater::new(60);
    let mut store = ContentStore::new(1_000_000);
    let first = valid_content(vec![8; 8], 40_000, &mut store);
    let second = valid_content(vec![9; 8], 41_000, &mut store);
    let d_first = first.digest();
    let d_second = second.digest();
    store.add_content(first).unwrap();
    store.add_content(second).unwrap();
    let ids = vec![d_second.clone(), vec![0u8; 32], d_first.clone()];
    let served = updater.on_get(&store, &ids);
    assert_eq!(served.len(), 2);
    assert_eq!(served[0].digest(), d_second);
    assert_eq!(served[1].digest(), d_first);
}

#[test]
fn disconnect_forgets_the_stored_poll() {
    let mut updater = Updater::new(60);
    let tip = vec![7u8; 32];
    updater.poll_content(6, Some(tip.clone()), vec![], 0, 0).unwrap();
    updater.on_disconnected(6);
    // the next poll from that peer is treated as an opening again
    let inbound = PollContentMessage { tip: tip.clone(), sketch: vec![], size: 0 };
    assert!(matches!(updater.on_poll_content(6, inbound, Some(tip)), PollAction::StartPoll));
}
