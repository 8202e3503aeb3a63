use biadnet::content::{Content, Transaction, TxOut};
use biadnet::script::funding_script;
use biadnet::store::{ContentStore, StoreError};

// the secp256k1 generator point, compressed
const FUNDER: [u8; 33] = [
    0x02, 0x79, 0xbe, 0x66, 0x7e, 0xf9, 0xdc, 0xbb, 0xac, 0x55, 0xa0, 0x62, 0x95, 0xce, 0x87,
    0x0b, 0x07, 0x02, 0x9b, 0xfc, 0xdb, 0x2d, 0xce, 0x28, 0xd9, 0x59, 0xf2, 0x81, 0x5b, 0x16,
    0xf8, 0x17, 0x98,
];

fn sha256d(bytes: &[u8]) -> Vec<u8> {
    let first = bitcoin_hashes::sha256::Hash::hash(bytes).to_byte_array();
    bitcoin_hashes::sha256::Hash::hash(&first).to_byte_array().to_vec()
}

/// Builds a content record whose funding output pays `value` satoshis
/// to the expected funding script, inside a block the store knows:
/// the block's Merkle root is the funding txid itself, reached by an
/// empty proof.
fn valid_content(data: Vec<u8>, value: u64, store: &mut ContentStore) -> Content {
    let mut raw = vec![0xccu8];
    raw.extend_from_slice(&data);
    let mut block_id = sha256d(&raw);
    block_id[0] ^= 0x55; // any block id; the root is what matters
    let mut content = Content {
        data,
        funding: Transaction { raw: raw.clone(), outputs: Vec::new() },
        block_id: block_id.clone(),
        spv_proof: Vec::new(),
        funder: FUNDER.to_vec(),
        term: 12,
    };
    let script = funding_script(&FUNDER, &content.digest(), content.term).unwrap();
    content.funding.outputs.push(TxOut { value, script_pubkey: script });
    store.add_header(block_id, sha256d(&raw));
    content
}

#[test]
fn tip_is_none_until_set() {
    let mut store = ContentStore::new(1_000_000);
    assert!(store.get_tip().is_none());
    store.set_tip(vec![3u8; 32]);
    assert_eq!(store.get_tip(), Some(vec![3u8; 32]));
}

#[test]
fn add_content_without_a_known_block_is_refused() {
    let mut store = ContentStore::new(1_000_000);
    let content = Content {
        data: vec![1],
        funding: Transaction { raw: vec![2], outputs: Vec::new() },
        block_id: vec![8u8; 32],
        spv_proof: Vec::new(),
        funder: FUNDER.to_vec(),
        term: 1,
    };
    assert!(matches!(store.add_content(content), Err(StoreError::UnknownBlock)));
    assert_eq!(store.get_nkeys(), 0);
}

#[test]
fn add_content_accepts_a_valid_record_and_is_idempotent() {
    let mut store = ContentStore::new(1_000_000);
    let content = valid_content(vec![1, 2, 3], 90_000, &mut store);
    let digest = content.digest();
    let copy = content.duplicate();

    assert!(store.add_content(content).is_ok());
    assert_eq!(store.get_nkeys(), 1);
    assert!(store.get_content(&digest).is_some());

    // a duplicate digest is accepted without growing the store
    assert!(store.add_content(copy).is_ok());
    assert_eq!(store.get_nkeys(), 1);
}

#[test]
fn add_content_rejects_a_record_with_no_matching_funding_output() {
    let mut store = ContentStore::new(1_000_000);
    let mut content = valid_content(vec![4, 5], 90_000, &mut store);
    // break the funding: the output no longer pays the expected script
    content.funding.outputs[0].script_pubkey[10] ^= 1;
    assert!(matches!(store.add_content(content), Err(StoreError::Invalid)));
    assert_eq!(store.get_nkeys(), 0);
}

#[test]
fn add_content_rejects_a_broken_spv_proof() {
    let mut store = ContentStore::new(1_000_000);
    let mut content = valid_content(vec![6], 90_000, &mut store);
    // an extra proof step no longer folds to the stored root
    content.spv_proof.push((false, vec![1u8; 32]));
    assert!(matches!(store.add_content(content), Err(StoreError::Invalid)));
    assert_eq!(store.get_nkeys(), 0);
}

#[test]
fn get_content_returns_the_stored_record() {
    let mut store = ContentStore::new(1_000_000);
    let content = valid_content(vec![7, 8, 9], 120_000, &mut store);
    let digest = content.digest();
    let data = content.data.clone();
    store.add_content(content).unwrap();
    let found = store.get_content(&digest).unwrap();
    assert_eq!(found.data, data);
    assert!(store.get_content(&[0u8; 32]).is_none());
}

#[test]
fn truncate_to_limit_evicts_lowest_weights_first() {
    // footprint of each record here is data.len() + raw.len():
    // raw = 1 + data.len(), so footprint = 2 * data.len() + 1.
    let mut store = ContentStore::new(0);
    // weights scale with value / footprint; equal footprints, varied values
    let values = [50_000u64, 10_000, 90_000, 30_000, 70_000];
    let mut digests = Vec::new();
    for (i, value) in values.iter().enumerate() {
        let content = valid_content(vec![i as u8; 10], *value, &mut store);
        digests.push(content.digest());
        store.add_content(content).unwrap();
    }
    assert_eq!(store.get_nkeys(), 5);
    let footprint_each: u64 = 10 + 11;

    // budget fits the top three records
    store.budget = 3 * footprint_each;
    let evicted = store.truncate_to_limit();
    assert_eq!(evicted, 2);
    assert_eq!(store.get_nkeys(), 3);

    // the two lowest-value records went, the top three stayed
    assert!(store.get_content(&digests[1]).is_none());
    assert!(store.get_content(&digests[3]).is_none());
    assert!(store.get_content(&digests[0]).is_some());
    assert!(store.get_content(&digests[2]).is_some());
    assert!(store.get_content(&digests[4]).is_some());

    // the retained keys all weigh at least as much as any evicted one
    let keys = store.get_keys();
    let evicted_weight = (10_000 / footprint_each) as u32;
    let low_retained = (30_000 / footprint_each) as u32;
    for key in &keys {
        assert!(key.weight >= evicted_weight);
        assert!(key.weight >= low_retained);
    }
}

#[test]
fn truncate_to_limit_is_a_no_op_within_budget() {
    let mut store = ContentStore::new(1_000_000);
    let content = valid_content(vec![1; 5], 40_000, &mut store);
    store.add_content(content).unwrap();
    assert_eq!(store.truncate_to_limit(), 0);
    assert_eq!(store.get_nkeys(), 1);
}

#[test]
fn stored_keys_carry_digest_and_weight() {
    let mut store = ContentStore::new(1_000_000);
    let content = valid_content(vec![2; 10], 63_000, &mut store);
    let digest = content.digest();
    let weight = content.weight().unwrap();
    store.add_content(content).unwrap();
    let keys = store.get_keys();
    assert_eq!(keys.len(), 1);
    assert_eq!(keys[0].digest, digest);
    assert_eq!(keys[0].weight, weight);
}
