use spv_bridge::hashing::{digest_below, encode_header, hash_claim};
use spv_bridge::{AccountId, Error, HashValue, Header, MerkleProof, SpvBridge, StateClaim};

// Roughly one digest in four is below this threshold.
const THRESHOLD: [u8; 32] = [
    63, 0, 0, 0, 0, 0, 0, 0, 0, 0, 0, 0, 0, 0, 0, 0, 0, 0, 0, 0, 0, 0, 0, 0, 0, 0, 0, 0, 0, 0, 0, 0,
];
const RELAY_FEE: u128 = 1_000;
const VERIFY_FEE: u128 = 100;
const ALICE: AccountId = [1u8; 32];
const BOB: AccountId = [2u8; 32];

fn make_child(parent: Header) -> Header {
    make_child_with_transactions_root(parent, 0)
}

fn make_child_with_transactions_root(parent: Header, tx_root: u64) -> Header {
    let mut child = Header {
        height: parent.height + 1,
        parent: SpvBridge::hash_header(parent),
        storage_root: 0,
        transactions_root: tx_root,
        pow_nonce: 1,
    };
    while SpvBridge::hash_header(child) >= THRESHOLD {
        child.pow_nonce = child.pow_nonce + 1;
    }
    child
}

/// A child whose digest misses the threshold.
fn make_weak_child(parent: Header) -> Header {
    let mut child = Header {
        height: parent.height + 1,
        parent: SpvBridge::hash_header(parent),
        storage_root: 0,
        transactions_root: 7,
        pow_nonce: 1,
    };
    while SpvBridge::hash_header(child) < THRESHOLD {
        child.pow_nonce = child.pow_nonce + 1;
    }
    child
}

fn deploy_bridge(deployer: AccountId) -> (SpvBridge, Header) {
    let source_genesis_header = Header {
        height: 100,
        parent: [0; 32],
        storage_root: 0,
        transactions_root: 0,
        // The checkpoint is not checked, not even its seal; a non-zero nonce
        // keeps it from being the default header.
        pow_nonce: 1,
    };
    let bridge = SpvBridge::new(source_genesis_header, THRESHOLD, RELAY_FEE, VERIFY_FEE, deployer);
    (bridge, source_genesis_header)
}

#[test]
fn test_constructor_works() {
    let (spv_bridge, genesis_header) = deploy_bridge(ALICE);
    let genesis_hash = SpvBridge::hash_header(genesis_header);
    assert_eq!(spv_bridge.fee_recipient(genesis_hash), Some(ALICE));
}

#[test]
fn test_submit_extend_longest_chain() {
    let (mut bridge, genesis_header) = deploy_bridge(ALICE);
    let genesis_hash = SpvBridge::hash_header(genesis_header);
    let child_header = make_child(genesis_header);
    let child_hash = SpvBridge::hash_header(child_header);

    let relay_response = bridge.submit_new_header(child_header, RELAY_FEE, ALICE);
    assert_eq!(relay_response, Ok(()));

    assert_eq!(bridge.canon_hash(100), Some(genesis_hash));
    assert_eq!(bridge.canon_hash(101), Some(child_hash));

    assert_eq!(bridge.fee_recipient(genesis_hash), Some(ALICE));
    assert_eq!(bridge.fee_recipient(child_hash), Some(ALICE));
}

#[test]
fn test_submit_side_chain() {
    // G---A---B
    let (mut bridge, genesis_header) = deploy_bridge(ALICE);
    let genesis_hash = SpvBridge::hash_header(genesis_header);
    let a_header = make_child(genesis_header);
    let a_hash = SpvBridge::hash_header(a_header);
    let b_header = make_child(a_header);
    let b_hash = SpvBridge::hash_header(b_header);

    assert_eq!(bridge.submit_new_header(a_header, RELAY_FEE, ALICE), Ok(()));
    assert_eq!(bridge.submit_new_header(b_header, RELAY_FEE, ALICE), Ok(()));

    // G---A---B
    //  \
    //   --C
    let c_header = make_child_with_transactions_root(genesis_header, 1);
    let c_hash = SpvBridge::hash_header(c_header);
    assert_eq!(bridge.submit_new_header(c_header, RELAY_FEE, ALICE), Ok(()));

    assert_eq!(bridge.canon_hash(100), Some(genesis_hash));
    assert_eq!(bridge.canon_hash(101), Some(a_hash));
    assert_eq!(bridge.canon_hash(102), Some(b_hash));

    assert_eq!(bridge.fee_recipient(genesis_hash), Some(ALICE));
    assert_eq!(bridge.fee_recipient(a_hash), Some(ALICE));
    assert_eq!(bridge.fee_recipient(b_hash), Some(ALICE));
    assert_eq!(bridge.fee_recipient(c_hash), Some(ALICE));
}

#[test]
fn test_submit_reorg_chain() {
    // G---A
    let (mut bridge, genesis_header) = deploy_bridge(ALICE);
    let genesis_hash = SpvBridge::hash_header(genesis_header);
    let a_header = make_child(genesis_header);
    let a_hash = SpvBridge::hash_header(a_header);
    assert_eq!(bridge.submit_new_header(a_header, RELAY_FEE, ALICE), Ok(()));

    // G---A
    //  \
    //   --C---D
    let c_header = make_child_with_transactions_root(genesis_header, 1);
    let c_hash = SpvBridge::hash_header(c_header);
    let d_header = make_child_with_transactions_root(c_header, 1);
    let d_hash = SpvBridge::hash_header(d_header);
    assert_eq!(bridge.submit_new_header(c_header, RELAY_FEE, ALICE), Ok(()));
    assert_eq!(bridge.submit_new_header(d_header, RELAY_FEE, ALICE), Ok(()));

    assert_eq!(bridge.canon_hash(100), Some(genesis_hash));
    assert_eq!(bridge.canon_hash(101), Some(c_hash));
    assert_eq!(bridge.canon_hash(102), Some(d_hash));

    assert_eq!(bridge.fee_recipient(genesis_hash), Some(ALICE));
    assert_eq!(bridge.fee_recipient(a_hash), Some(ALICE));
    assert_eq!(bridge.fee_recipient(c_hash), Some(ALICE));
    assert_eq!(bridge.fee_recipient(d_hash), Some(ALICE));
}

#[test]
fn test_tx_verification_success() {
    let (mut bridge, genesis_header) = deploy_bridge(ALICE);
    let genesis_hash = SpvBridge::hash_header(genesis_header);
    let a_header = make_child(genesis_header);
    assert_eq!(bridge.submit_new_header(a_header, RELAY_FEE, ALICE), Ok(()));

    assert!(bridge.verify_transaction([0u8; 32], genesis_hash, 0, MerkleProof { verifies: true }, VERIFY_FEE));
}

#[test]
fn test_tx_verification_failure() {
    let (mut bridge, genesis_header) = deploy_bridge(ALICE);
    let genesis_hash = SpvBridge::hash_header(genesis_header);
    let a_header = make_child(genesis_header);
    assert_eq!(bridge.submit_new_header(a_header, RELAY_FEE, ALICE), Ok(()));

    assert_eq!(
        bridge.verify_transaction([0u8; 32], genesis_hash, 0, MerkleProof { verifies: false }, VERIFY_FEE),
        false
    );
}

#[test]
fn test_state_verification_success() {
    let (mut bridge, genesis_header) = deploy_bridge(ALICE);
    let genesis_hash = SpvBridge::hash_header(genesis_header);
    let a_header = make_child(genesis_header);
    assert_eq!(bridge.submit_new_header(a_header, RELAY_FEE, ALICE), Ok(()));

    let claim = StateClaim { key: 0, value: 0 };
    assert!(bridge.verify_state(claim, genesis_hash, 0, MerkleProof { verifies: true }, VERIFY_FEE));
}

#[test]
fn test_state_verification_failure() {
    let (mut bridge, genesis_header) = deploy_bridge(ALICE);
    let genesis_hash = SpvBridge::hash_header(genesis_header);
    let a_header = make_child(genesis_header);
    assert_eq!(bridge.submit_new_header(a_header, RELAY_FEE, ALICE), Ok(()));

    let claim = StateClaim { key: 0, value: 0 };
    assert_eq!(
        bridge.verify_state(claim, genesis_hash, 0, MerkleProof { verifies: false }, VERIFY_FEE),
        false
    );
}

#[test]
fn genesis_is_canonical_and_credited() {
    let (bridge, genesis_header) = deploy_bridge(BOB);
    let g = SpvBridge::hash_header(genesis_header);
    assert!(bridge.header_is_known(g));
    assert!(bridge.header_is_canon(g));
    assert_eq!(bridge.fee_recipient(g), Some(BOB));
    assert_eq!(bridge.best_height(), 100);
    assert_eq!(bridge.canon_hash(99), None);
    assert_eq!(bridge.canon_hash(101), None);
}

#[test]
fn child_extends_best_height() {
    let (mut bridge, genesis_header) = deploy_bridge(ALICE);
    let child = make_child(genesis_header);
    assert_eq!(bridge.submit_new_header(child, RELAY_FEE, BOB), Ok(()));
    assert_eq!(bridge.best_height(), 101);
    assert_eq!(bridge.canon_hash(101), Some(SpvBridge::hash_header(child)));
    assert_eq!(bridge.fee_recipient(SpvBridge::hash_header(child)), Some(BOB));
}

#[test]
fn insufficient_relay_fee_is_refused() {
    let (mut bridge, genesis_header) = deploy_bridge(ALICE);
    let child = make_child(genesis_header);
    assert_eq!(bridge.submit_new_header(child, RELAY_FEE - 1, ALICE), Err(Error::InsufficientRelayFee));
    assert!(!bridge.header_is_known(SpvBridge::hash_header(child)));
    assert_eq!(bridge.best_height(), 100);
}

#[test]
fn resubmission_is_refused_and_changes_nothing() {
    let (mut bridge, genesis_header) = deploy_bridge(ALICE);
    let child = make_child(genesis_header);
    assert_eq!(bridge.submit_new_header(child, RELAY_FEE, ALICE), Ok(()));
    assert_eq!(bridge.submit_new_header(child, RELAY_FEE, BOB), Err(Error::HeaderAlreadySubmitted));
    assert_eq!(bridge.fee_recipient(SpvBridge::hash_header(child)), Some(ALICE));
    assert_eq!(bridge.best_height(), 101);
    assert_eq!(bridge.submit_new_header(genesis_header, RELAY_FEE, BOB), Err(Error::HeaderAlreadySubmitted));
}

#[test]
fn unknown_parent_is_refused() {
    let (mut bridge, genesis_header) = deploy_bridge(ALICE);
    let a = make_child(genesis_header);
    let b = make_child(a);
    assert_eq!(bridge.submit_new_header(b, RELAY_FEE, ALICE), Err(Error::UnknownParent));
    assert!(!bridge.header_is_known(SpvBridge::hash_header(b)));
}

#[test]
fn incorrect_height_is_refused() {
    let (mut bridge, genesis_header) = deploy_bridge(ALICE);
    let mut child = make_child(genesis_header);
    child.height = 102;
    assert_eq!(bridge.submit_new_header(child, RELAY_FEE, ALICE), Err(Error::IncorrectHeight));
    child.height = 100;
    assert_eq!(bridge.submit_new_header(child, RELAY_FEE, ALICE), Err(Error::IncorrectHeight));
}

#[test]
fn weak_proof_of_work_is_refused() {
    let (mut bridge, genesis_header) = deploy_bridge(ALICE);
    let weak = make_weak_child(genesis_header);
    assert!(SpvBridge::hash_header(weak) >= THRESHOLD);
    assert_eq!(bridge.submit_new_header(weak, RELAY_FEE, ALICE), Err(Error::PoWThresholdNotMet));
    assert!(!bridge.header_is_known(SpvBridge::hash_header(weak)));
}

#[test]
fn pow_refusal_matches_threshold_over_nonces() {
    let (bridge0, genesis_header) = deploy_bridge(ALICE);
    drop(bridge0);
    for nonce in 0..64u64 {
        let (mut bridge, _) = deploy_bridge(ALICE);
        let child = Header {
            height: 101,
            parent: SpvBridge::hash_header(genesis_header),
            storage_root: 3,
            transactions_root: 4,
            pow_nonce: nonce,
        };
        let below = SpvBridge::hash_header(child) < THRESHOLD;
        let r = bridge.submit_new_header(child, RELAY_FEE, ALICE);
        assert_eq!(r == Err(Error::PoWThresholdNotMet), !below);
        assert_eq!(r == Ok(()), below);
    }
}

#[test]
fn reorg_makes_old_tip_stale() {
    let (mut bridge, genesis_header) = deploy_bridge(ALICE);
    let g = SpvBridge::hash_header(genesis_header);
    let a = make_child(genesis_header);
    let c = make_child_with_transactions_root(genesis_header, 1);
    let d = make_child_with_transactions_root(c, 1);
    assert_eq!(bridge.submit_new_header(a, RELAY_FEE, ALICE), Ok(()));
    assert_eq!(bridge.submit_new_header(c, RELAY_FEE, BOB), Ok(()));
    assert!(!bridge.header_is_canon(SpvBridge::hash_header(c)));
    assert_eq!(bridge.submit_new_header(d, RELAY_FEE, BOB), Ok(()));
    let a_hash = SpvBridge::hash_header(a);
    assert!(bridge.header_is_known(a_hash));
    assert!(!bridge.header_is_canon(a_hash));
    assert!(bridge.header_is_canon(SpvBridge::hash_header(c)));
    assert!(bridge.header_is_canon(SpvBridge::hash_header(d)));
    assert!(bridge.header_is_canon(g));
    assert_eq!(bridge.best_height(), 102);
    // Fees stay with whoever relayed each header.
    assert_eq!(bridge.fee_recipient(a_hash), Some(ALICE));
    assert_eq!(bridge.fee_recipient(SpvBridge::hash_header(c)), Some(BOB));
}

#[test]
fn deep_reorg_rewrites_from_fork_point() {
    // G---A1---A2---A3 then G---A1---B2---B3---B4
    let (mut bridge, g) = deploy_bridge(ALICE);
    let a1 = make_child(g);
    let a2 = make_child(a1);
    let a3 = make_child(a2);
    for h in [a1, a2, a3] {
        assert_eq!(bridge.submit_new_header(h, RELAY_FEE, ALICE), Ok(()));
    }
    let b2 = make_child_with_transactions_root(a1, 9);
    let b3 = make_child_with_transactions_root(b2, 9);
    let b4 = make_child_with_transactions_root(b3, 9);
    for h in [b2, b3] {
        assert_eq!(bridge.submit_new_header(h, RELAY_FEE, BOB), Ok(()));
        assert_eq!(bridge.canon_hash(103), Some(SpvBridge::hash_header(a3)));
    }
    assert_eq!(bridge.submit_new_header(b4, RELAY_FEE, BOB), Ok(()));
    assert_eq!(bridge.best_height(), 104);
    assert_eq!(bridge.canon_hash(100), Some(SpvBridge::hash_header(g)));
    assert_eq!(bridge.canon_hash(101), Some(SpvBridge::hash_header(a1)));
    assert_eq!(bridge.canon_hash(102), Some(SpvBridge::hash_header(b2)));
    assert_eq!(bridge.canon_hash(103), Some(SpvBridge::hash_header(b3)));
    assert_eq!(bridge.canon_hash(104), Some(SpvBridge::hash_header(b4)));
}

#[test]
fn equal_height_branch_is_not_adopted() {
    let (mut bridge, g) = deploy_bridge(ALICE);
    let a = make_child(g);
    let c = make_child_with_transactions_root(g, 1);
    assert_eq!(bridge.submit_new_header(a, RELAY_FEE, ALICE), Ok(()));
    assert_eq!(bridge.submit_new_header(c, RELAY_FEE, ALICE), Ok(()));
    assert_eq!(bridge.canon_hash(101), Some(SpvBridge::hash_header(a)));
    assert_eq!(bridge.best_height(), 101);
}

#[test]
fn best_height_never_decreases() {
    let (mut bridge, g) = deploy_bridge(ALICE);
    let a = make_child(g);
    let b = make_child(a);
    let c = make_child_with_transactions_root(g, 5);
    let mut last = bridge.best_height();
    for h in [a, b, c, a, make_weak_child(g)] {
        let _ = bridge.submit_new_header(h, RELAY_FEE, ALICE);
        assert!(bridge.best_height() >= last);
        last = bridge.best_height();
    }
    assert_eq!(last, 102);
}

#[test]
fn depth_gating() {
    let (mut bridge, g) = deploy_bridge(ALICE);
    let gh = SpvBridge::hash_header(g);
    let a = make_child(g);
    assert_eq!(bridge.submit_new_header(a, RELAY_FEE, ALICE), Ok(()));
    let p = MerkleProof { verifies: true };
    assert!(bridge.verify_transaction([0u8; 32], gh, 1, p, VERIFY_FEE));
    assert!(!bridge.verify_transaction([0u8; 32], gh, 2, p, VERIFY_FEE));
    assert!(!bridge.verify_state(StateClaim { key: 1, value: 2 }, gh, 2, p, VERIFY_FEE));
    assert!(!bridge.verify_transaction([0u8; 32], gh, u64::MAX, p, VERIFY_FEE));
}

#[test]
fn verification_refusals() {
    let (mut bridge, g) = deploy_bridge(ALICE);
    let gh = SpvBridge::hash_header(g);
    let a = make_child(g);
    let c = make_child_with_transactions_root(g, 1);
    assert_eq!(bridge.submit_new_header(a, RELAY_FEE, ALICE), Ok(()));
    assert_eq!(bridge.submit_new_header(c, RELAY_FEE, ALICE), Ok(()));
    let p = MerkleProof { verifies: true };
    // Fee below the verification fee.
    assert!(!bridge.verify_transaction([0u8; 32], gh, 0, p, VERIFY_FEE - 1));
    // Unknown header.
    assert!(!bridge.verify_transaction([0u8; 32], [9u8; 32], 0, p, VERIFY_FEE));
    // Stored but not canonical.
    assert!(!bridge.verify_transaction([0u8; 32], SpvBridge::hash_header(c), 0, p, VERIFY_FEE));
    assert!(bridge.verify_transaction([0u8; 32], SpvBridge::hash_header(a), 0, p, VERIFY_FEE));
    assert_eq!(bridge.fee_recipient(gh), Some(ALICE));
}

#[test]
fn check_merkle_proof_follows_stub() {
    assert!(MerkleProof::check_merkle_proof([1u8; 32], MerkleProof { verifies: true }, 5));
    assert!(!MerkleProof::check_merkle_proof([1u8; 32], MerkleProof { verifies: false }, 5));
}

#[test]
fn header_encoding_is_little_endian_in_field_order() {
    let h = Header {
        height: 0x0102030405060708,
        parent: [0xAA; 32],
        storage_root: 1,
        transactions_root: 256,
        pow_nonce: u64::MAX,
    };
    let bytes = encode_header(&h);
    let mut expected: Vec<u8> = vec![8, 7, 6, 5, 4, 3, 2, 1];
    expected.extend_from_slice(&[0xAA; 32]);
    expected.extend_from_slice(&[1, 0, 0, 0, 0, 0, 0, 0]);
    expected.extend_from_slice(&[0, 1, 0, 0, 0, 0, 0, 0]);
    expected.extend_from_slice(&[0xFF; 8]);
    assert_eq!(bytes, expected);
}

#[test]
fn header_digest_depends_on_every_field() {
    let h = Header { height: 1, parent: [0; 32], storage_root: 0, transactions_root: 0, pow_nonce: 0 };
    let d = SpvBridge::hash_header(h);
    assert_eq!(d, SpvBridge::hash_header(h));
    let bytes = encode_header(&h);
    assert_ne!(&d[..], &bytes[..32]);
    let mut h2 = h;
    h2.pow_nonce = 1;
    assert_ne!(d, SpvBridge::hash_header(h2));
    let mut h3 = h;
    h3.parent = [1; 32];
    assert_ne!(d, SpvBridge::hash_header(h3));
}

#[test]
fn claim_digest_is_sha256_of_encoding() {
    // SHA-256 of sixteen zero bytes.
    let expected: HashValue = [
        0x37, 0x47, 0x08, 0xff, 0xf7, 0x71, 0x9d, 0xd5, 0x97, 0x9e, 0xc8, 0x75, 0xd5, 0x6c, 0xd2, 0x28,
        0x6f, 0x6d, 0x3c, 0xf7, 0xec, 0x31, 0x7a, 0x3b, 0x25, 0x63, 0x2a, 0xab, 0x28, 0xec, 0x37, 0xbb,
    ];
    assert_eq!(hash_claim(&StateClaim { key: 0, value: 0 }), expected);
    assert_ne!(hash_claim(&StateClaim { key: 0, value: 1 }), expected);
}

#[test]
fn digest_below_is_big_endian_order() {
    let mut a = [0u8; 32];
    let mut b = [0u8; 32];
    assert!(!digest_below(&a, &b));
    b[31] = 1;
    assert!(digest_below(&a, &b));
    a[0] = 1;
    assert!(!digest_below(&a, &b));
    assert!(digest_below(&b, &a));
    assert!(digest_below(&[62; 32], &THRESHOLD));
    assert!(!digest_below(&THRESHOLD, &THRESHOLD));
}
