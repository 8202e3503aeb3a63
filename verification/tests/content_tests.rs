use biadnet::content::{Content, Transaction, TxOut};
use biadnet::script::{funding_script, funding_script_for_tweaked};

// the secp256k1 generator point, compressed
const FUNDER: [u8; 33] = [
    0x02, 0x79, 0xbe, 0x66, 0x7e, 0xf9, 0xdc, 0xbb, 0xac, 0x55, 0xa0, 0x62, 0x95, 0xce, 0x87,
    0x0b, 0x07, 0x02, 0x9b, 0xfc, 0xdb, 0x2d, 0xce, 0x28, 0xd9, 0x59, 0xf2, 0x81, 0x5b, 0x16,
    0xf8, 0x17, 0x98,
];

fn varint_prefixed(bytes: &[u8]) -> Vec<u8> {
    let mut out = Vec::new();
    let n = bytes.len() as u64;
    if n < 0xfd {
        out.push(n as u8);
    } else if n <= 0xffff {
        out.push(0xfd);
        out.extend_from_slice(&(n as u16).to_le_bytes());
    } else if n <= 0xffff_ffff {
        out.push(0xfe);
        out.extend_from_slice(&(n as u32).to_le_bytes());
    } else {
        out.push(0xff);
        out.extend_from_slice(&n.to_le_bytes());
    }
    out.extend_from_slice(bytes);
    out
}

fn sha256d(bytes: &[u8]) -> Vec<u8> {
    let first = bitcoin_hashes::sha256::Hash::hash(bytes).to_byte_array();
    bitcoin_hashes::sha256::Hash::hash(&first).to_byte_array().to_vec()
}

fn plain_content(data: Vec<u8>, raw: Vec<u8>, outputs: Vec<TxOut>, term: u16) -> Content {
    Content {
        data,
        funding: Transaction { raw, outputs },
        block_id: vec![9u8; 32],
        spv_proof: Vec::new(),
        funder: FUNDER.to_vec(),
        term,
    }
}

#[test]
fn digest_is_sha256_of_length_prefixed_data_and_funder() {
    let content = plain_content(vec![1, 2, 3], vec![0xaa], Vec::new(), 6);
    let mut preimage = varint_prefixed(&[1, 2, 3]);
    preimage.extend_from_slice(&varint_prefixed(&FUNDER));
    let expected = bitcoin_hashes::sha256::Hash::hash(&preimage).to_byte_array().to_vec();
    assert_eq!(content.digest(), expected);
}

#[test]
fn digest_uses_the_multi_byte_length_prefix_for_long_data() {
    let data = vec![0x5au8; 300];
    let content = plain_content(data.clone(), Vec::new(), Vec::new(), 6);
    let mut preimage = varint_prefixed(&data);
    assert_eq!(preimage[0], 0xfd);
    preimage.extend_from_slice(&varint_prefixed(&FUNDER));
    let expected = bitcoin_hashes::sha256::Hash::hash(&preimage).to_byte_array().to_vec();
    assert_eq!(content.digest(), expected);
}

#[test]
fn digest_depends_on_data_and_funder() {
    let a = plain_content(vec![1, 2, 3], vec![], Vec::new(), 6);
    let b = plain_content(vec![1, 2, 4], vec![], Vec::new(), 6);
    let mut c = plain_content(vec![1, 2, 3], vec![], Vec::new(), 6);
    c.funder[32] ^= 1;
    assert_eq!(a.digest(), a.digest());
    assert_ne!(a.digest(), b.digest());
    assert_ne!(a.digest(), c.digest());
}

#[test]
fn empty_spv_proof_authenticates_the_txid_itself() {
    let content = plain_content(vec![5], vec![0xde, 0xad], Vec::new(), 1);
    let txid = sha256d(&[0xde, 0xad]);
    assert!(content.is_valid_spv_proof(&txid));
    let mut wrong = txid.clone();
    wrong[0] ^= 1;
    assert!(!content.is_valid_spv_proof(&wrong));
}

#[test]
fn spv_proof_folds_siblings_in_flag_order() {
    let raw = vec![1, 2, 3, 4];
    let txid = sha256d(&raw);
    let sib = vec![7u8; 32];

    // sibling on the right: hash(txid || sib)
    let mut cat = txid.clone();
    cat.extend_from_slice(&sib);
    let root_right = sha256d(&cat);
    let mut content = plain_content(vec![5], raw.clone(), Vec::new(), 1);
    content.spv_proof = vec![(false, sib.clone())];
    assert!(content.is_valid_spv_proof(&root_right));

    // sibling on the left: hash(sib || txid)
    let mut cat = sib.clone();
    cat.extend_from_slice(&txid);
    let root_left = sha256d(&cat);
    content.spv_proof = vec![(true, sib.clone())];
    assert!(content.is_valid_spv_proof(&root_left));

    // swapped flag fails against the other root
    assert!(!content.is_valid_spv_proof(&root_right));

    // a flipped bit in the sibling breaks the proof
    let mut bad_sib = sib.clone();
    bad_sib[13] ^= 0x10;
    content.spv_proof = vec![(true, bad_sib)];
    assert!(!content.is_valid_spv_proof(&root_left));
}

#[test]
fn funding_script_matches_a_hand_built_p2wsh_script() {
    let digest = [0x11u8; 32];
    let term: u16 = 525;
    let script = funding_script(&FUNDER, &digest, term).unwrap();

    // tweak the generator by the digest with secp256k1 directly
    let funder = secp256k1::PublicKey::from_slice(&FUNDER).unwrap();
    let scalar = secp256k1::Scalar::from_be_bytes(digest).unwrap();
    let tweaked = funder.add_exp_tweak(&scalar).unwrap().serialize();

    let mut witness = Vec::new();
    witness.push(33u8);
    witness.extend_from_slice(&tweaked);
    witness.push(0xad); // OP_CHECKSIGVERIFY
    witness.push(3u8);
    let v = (term as u32) | (1 << 22);
    witness.extend_from_slice(&v.to_le_bytes()[0..3]);
    witness.push(0xb2); // OP_CSV
    let mut expected = vec![0u8, 32u8];
    expected.extend_from_slice(&bitcoin_hashes::sha256::Hash::hash(&witness).to_byte_array());

    assert_eq!(script, expected);
    assert_eq!(script.len(), 34);
}

#[test]
fn funding_script_depends_on_funder_digest_and_term() {
    let digest = [0x22u8; 32];
    let base = funding_script(&FUNDER, &digest, 100).unwrap();

    assert_eq!(funding_script(&FUNDER, &digest, 100).unwrap(), base);

    let other_term = funding_script(&FUNDER, &digest, 101).unwrap();
    assert_ne!(other_term, base);

    let mut other_digest = digest;
    other_digest[0] ^= 1;
    assert_ne!(funding_script(&FUNDER, &other_digest, 100).unwrap(), base);

    let funder = secp256k1::PublicKey::from_slice(&FUNDER).unwrap();
    let two = secp256k1::Scalar::from_be_bytes({
        let mut b = [0u8; 32];
        b[31] = 2;
        b
    })
    .unwrap();
    let other_funder = funder.add_exp_tweak(&two).unwrap().serialize();
    assert_ne!(funding_script(&other_funder, &digest, 100).unwrap(), base);
}

#[test]
fn funding_script_rejects_an_invalid_funder_key() {
    let digest = [0x33u8; 32];
    assert!(funding_script(&[0u8; 33], &digest, 1).is_none());
}

#[test]
fn funding_script_for_tweaked_is_the_p2wsh_of_the_witness_script() {
    let tweaked = [0x02u8; 33];
    let script = funding_script_for_tweaked(&tweaked, 7);
    let mut witness = Vec::new();
    witness.push(33u8);
    witness.extend_from_slice(&tweaked);
    witness.push(0xad);
    witness.push(3u8);
    let v = 7u32 | (1 << 22);
    witness.extend_from_slice(&v.to_le_bytes()[0..3]);
    witness.push(0xb2);
    let mut expected = vec![0u8, 32u8];
    expected.extend_from_slice(&bitcoin_hashes::sha256::Hash::hash(&witness).to_byte_array());
    assert_eq!(script, expected);
}

#[test]
fn is_valid_funding_needs_an_output_paying_the_funding_script() {
    let mut content = plain_content(vec![1, 2], vec![0x77], Vec::new(), 4);
    let script = funding_script(&FUNDER, &content.digest(), 4).unwrap();
    assert!(!content.is_valid_funding());

    content.funding.outputs.push(TxOut { value: 5000, script_pubkey: vec![0u8; 34] });
    assert!(!content.is_valid_funding());

    content.funding.outputs.push(TxOut { value: 9000, script_pubkey: script });
    assert!(content.is_valid_funding());
}

#[test]
fn weight_is_funded_satoshis_per_footprint_byte() {
    let data = vec![0u8; 10];
    let raw = vec![1u8; 20];
    let mut content = plain_content(data, raw, Vec::new(), 4);
    let script = funding_script(&FUNDER, &content.digest(), 4).unwrap();
    content.funding.outputs.push(TxOut { value: 4000, script_pubkey: script.clone() });
    content.funding.outputs.push(TxOut { value: 35, script_pubkey: vec![0u8; 34] });
    content.funding.outputs.push(TxOut { value: 2000, script_pubkey: script });
    // footprint = 10 + 20 + 0, matching outputs pay 6000
    assert_eq!(content.weight(), Some(6000 / 30));
}

#[test]
fn weight_is_none_on_an_empty_footprint() {
    let content = plain_content(Vec::new(), Vec::new(), Vec::new(), 4);
    assert_eq!(content.weight(), None);
}

#[test]
fn weight_never_grows_with_the_footprint() {
    let mut previous = u32::MAX;
    for extra in 0..5 {
        let data = vec![0u8; 10 + extra * 13];
        let mut content = plain_content(data, vec![1u8; 20], Vec::new(), 4);
        let script = funding_script(&FUNDER, &content.digest(), 4).unwrap();
        content.funding.outputs.push(TxOut { value: 100_000, script_pubkey: script });
        let w = content.weight().unwrap();
        assert!(w <= previous);
        previous = w;
    }
}
