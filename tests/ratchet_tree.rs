use molasses::crypto::{
    CipherSuite, CryptoRng, DhPrivateKey, DhPublicKey, EciesCiphertext, Error, SigSecretKey,
    Signature,
};
use molasses::handshake::{EpochSecrets, GroupInit, GroupOperation, GroupState, Handshake};
use molasses::ratchet_tree::{RatchetTree, RatchetTreeNode};
use molasses::tree_math;
use rand::{Rng, SeedableRng};

/// A stand-in cipher suite: the public key is the private key with every byte
/// flipped, and a ciphertext is the plaintext masked by the recipient's public
/// key and one random byte.
struct MaskSuite;

fn public_of(private: &[u8]) -> Vec<u8> {
    private.iter().map(|b| b ^ 0x5a).collect()
}

fn mask(data: &[u8], key: &[u8], salt: u8) -> Vec<u8> {
    data.iter().enumerate().map(|(i, b)| b ^ key[i % key.len()] ^ salt).collect()
}

impl CipherSuite for MaskSuite {
    fn derive_key_pair(&self, seed: &Vec<u8>) -> Result<(DhPublicKey, DhPrivateKey), Error> {
        if seed.is_empty() {
            return Err(Error::EncryptionError);
        }
        Ok((DhPublicKey { bytes: public_of(seed) }, DhPrivateKey { bytes: seed.clone() }))
    }

    fn ecies_encrypt<R: CryptoRng>(
        &self,
        recipient: &DhPublicKey,
        plaintext: &Vec<u8>,
        csprng: &mut R,
    ) -> Result<EciesCiphertext, Error> {
        let mut salt = vec![0u8; 1];
        csprng.fill_bytes(&mut salt);
        Ok(EciesCiphertext {
            ephemeral_public_key: DhPublicKey { bytes: salt.clone() },
            ciphertext: mask(plaintext, &recipient.bytes, salt[0]),
        })
    }

    fn ecies_decrypt(&self, key: &DhPrivateKey, ct: &EciesCiphertext) -> Result<Vec<u8>, Error> {
        let salt = ct.ephemeral_public_key.bytes[0];
        Ok(mask(&ct.ciphertext, &public_of(&key.bytes), salt))
    }

    fn sign(&self, key: &SigSecretKey, msg: &Vec<u8>) -> Signature {
        let mut bytes = key.bytes.clone();
        bytes.extend(msg.iter().rev());
        Signature { bytes }
    }
}

struct FixedRng(u8);

impl CryptoRng for FixedRng {
    fn fill_bytes(&mut self, dest: &mut Vec<u8>) {
        for b in dest.iter_mut() {
            *b = self.0;
            self.0 = self.0.wrapping_add(1);
        }
    }
}

#[test]
fn confirmation_is_hmac_of_transcript_and_signature() {
    let state = GroupState {
        epoch: 9,
        roster_index: 4,
        transcript_hash: vec![1, 2, 3],
        identity_key: SigSecretKey { bytes: vec![7, 7] },
        epoch_secrets: EpochSecrets { confirmation_key: vec![0x0b; 20] },
    };
    let h: Handshake =
        Handshake::from_group_op(&MaskSuite, &state, GroupOperation::Init(GroupInit {})).unwrap();
    assert_eq!(h.prior_epoch, 9);
    assert_eq!(h.signer_index, 4);
    assert_eq!(h.signature.bytes, vec![7, 7, 3, 2, 1]);
    let key = ring::hmac::Key::new(ring::hmac::HMAC_SHA256, &[0x0b; 20]);
    let expected = ring::hmac::sign(&key, &[1, 2, 3, 7, 7, 3, 2, 1]);
    assert_eq!(h.confirmation, expected.as_ref().to_vec());
    assert_eq!(h.confirmation.len(), 32);
    assert!(matches!(h.operation, GroupOperation::Init(_)));
}

#[test]
fn mask_suite_round_trips() {
    let (pk, sk) = MaskSuite.derive_key_pair(&vec![3, 4, 5]).unwrap();
    let mut rng = FixedRng(9);
    let ct = MaskSuite.ecies_encrypt(&pk, &vec![10, 20, 30, 40], &mut rng).unwrap();
    assert_ne!(ct.ciphertext, vec![10, 20, 30, 40]);
    assert_eq!(MaskSuite.ecies_decrypt(&sk, &ct).unwrap(), vec![10, 20, 30, 40]);
}

struct StdCryptoRng(rand::rngs::StdRng);

impl CryptoRng for StdCryptoRng {
    fn fill_bytes(&mut self, dest: &mut Vec<u8>) {
        rand::RngCore::fill_bytes(&mut self.0, dest.as_mut_slice());
    }
}

fn filled(tag: u8) -> RatchetTreeNode {
    RatchetTreeNode::Filled {
        public_key: DhPublicKey { bytes: vec![tag] },
        private_key: None,
        secret: None,
    }
}

fn tree_of(pattern: &[bool]) -> RatchetTree {
    let nodes = pattern
        .iter()
        .enumerate()
        .map(|(i, &f)| if f { filled(i as u8) } else { RatchetTreeNode::Blank })
        .collect();
    RatchetTree { nodes }
}

fn filled_pattern(tree: &RatchetTree) -> Vec<bool> {
    (0..tree.size()).map(|i| tree.get(i).unwrap().is_filled()).collect()
}

fn public_key_of(tree: &RatchetTree, idx: usize) -> Vec<u8> {
    tree.get(idx).unwrap().get_public_key().unwrap().bytes.clone()
}

fn full_tree(num_leaves: usize) -> RatchetTree {
    let mut tree = RatchetTree::new();
    for _ in 0..num_leaves {
        tree.add_leaf_node(RatchetTreeNode::Blank);
    }
    for i in 0..num_leaves {
        let res = tree.propogate_new_path_secret(&MaskSuite, vec![i as u8; 32], 2 * i);
        assert!(res.is_ok());
    }
    tree
}

#[test]
fn direct_path_message_correctness() {
    let num_leaves = 7;
    let rng_seed = 36;
    let mut rng = rand::rngs::StdRng::seed_from_u64(rng_seed);
    let num_nodes = tree_math::num_nodes_in_tree(num_leaves);

    let tree = full_tree(num_leaves);

    let sender_tree_idx = 2 * rng.gen_range(0, num_leaves);
    let receiver_tree_idx = loop {
        let idx = rng.gen_range(0, num_nodes);
        if idx != sender_tree_idx && !tree_math::is_ancestor(idx, sender_tree_idx, num_leaves) {
            break idx;
        }
    };

    let mut csprng = StdCryptoRng(rng);
    let direct_path_msg = tree
        .encrypt_direct_path_secrets(&MaskSuite, sender_tree_idx, &mut csprng)
        .expect("failed to encrypt direct path secrets");
    let (derived_path_secret, common_ancestor_idx) = tree
        .decrypt_direct_path_message(
            &MaskSuite,
            &direct_path_msg,
            sender_tree_idx,
            receiver_tree_idx,
        )
        .expect("failed to decrypt direct path secret");

    assert_eq!(
        common_ancestor_idx,
        tree_math::common_ancestor(sender_tree_idx, receiver_tree_idx, num_leaves)
    );
    let expected_path_secret = tree.get(common_ancestor_idx).unwrap().get_secret().unwrap();
    assert_eq!(&derived_path_secret, expected_path_secret);
}

#[test]
fn direct_path_round_trip_for_every_pair() {
    for num_leaves in 2..9usize {
        let tree = full_tree(num_leaves);
        let num_nodes = tree_math::num_nodes_in_tree(num_leaves);
        for leaf in 0..num_leaves {
            let sender = 2 * leaf;
            let mut csprng = FixedRng(leaf as u8);
            let msg = tree.encrypt_direct_path_secrets(&MaskSuite, sender, &mut csprng).unwrap();
            for receiver in 0..num_nodes {
                if receiver == sender || tree_math::is_ancestor(receiver, sender, num_leaves) {
                    continue;
                }
                let (secret, ca) =
                    tree.decrypt_direct_path_message(&MaskSuite, &msg, sender, receiver).unwrap();
                assert_eq!(ca, tree_math::common_ancestor(sender, receiver, num_leaves));
                assert_eq!(&secret, tree.get(ca).unwrap().get_secret().unwrap());
            }
        }
    }
}

#[test]
fn direct_path_leading_message_and_public_keys() {
    let tree = full_tree(5);
    let mut csprng = FixedRng(1);
    let msg = tree.encrypt_direct_path_secrets(&MaskSuite, 2, &mut csprng).unwrap();
    assert!(msg.node_messages[0].node_secrets.is_empty());
    assert_eq!(msg.node_messages[0].public_key.bytes, public_key_of(&tree, 2));
    // Leaf 2 of a five-leaf tree: parent 1, then 3, then the root 7.
    assert_eq!(tree_math::node_direct_path(2, 5), vec![1, 3]);
    let path = tree_math::node_extended_direct_path(2, 5);
    assert_eq!(path, vec![2, 1, 3, 7]);
    assert_eq!(msg.node_messages.len(), 4);
    for (t, idx) in path.iter().enumerate() {
        assert_eq!(msg.node_messages[t].public_key.bytes, public_key_of(&tree, *idx));
    }
    for t in 1..4 {
        assert_eq!(msg.node_messages[t].node_secrets.len(), 1);
    }
}

#[test]
fn encrypt_refuses_bad_senders() {
    let tree = full_tree(4);
    let mut csprng = FixedRng(0);
    assert!(matches!(
        tree.encrypt_direct_path_secrets(&MaskSuite, 3, &mut csprng),
        Err(Error::TreeError(_))
    ));
    assert!(matches!(
        tree.encrypt_direct_path_secrets(&MaskSuite, 8, &mut csprng),
        Err(Error::TreeError(_))
    ));
    let blank = tree_of(&[false, false, true]);
    assert!(matches!(
        blank.encrypt_direct_path_secrets(&MaskSuite, 0, &mut csprng),
        Err(Error::TreeError(_))
    ));
    // A filled leaf whose ancestors hold no secret.
    let no_secret = tree_of(&[true, true, true]);
    assert!(matches!(
        no_secret.encrypt_direct_path_secrets(&MaskSuite, 0, &mut csprng),
        Err(Error::TreeError(_))
    ));
}

#[test]
fn decrypt_refuses_bad_inputs() {
    let tree = full_tree(4);
    let mut csprng = FixedRng(0);
    let msg = tree.encrypt_direct_path_secrets(&MaskSuite, 0, &mut csprng).unwrap();
    assert!(matches!(
        tree.decrypt_direct_path_message(&MaskSuite, &msg, 0, 7),
        Err(Error::TreeError(_))
    ));
    assert!(matches!(
        tree.decrypt_direct_path_message(&MaskSuite, &msg, 0, 1),
        Err(Error::TreeError(_))
    ));
    let truncated = molasses::handshake::DirectPathMessage { node_messages: Vec::new() };
    assert!(matches!(
        tree.decrypt_direct_path_message(&MaskSuite, &truncated, 0, 6),
        Err(Error::TreeError(_))
    ));
    let mut keyless = full_tree(4);
    keyless.nodes[6] = filled(6);
    keyless.nodes[5] = RatchetTreeNode::Blank;
    assert!(matches!(
        keyless.decrypt_direct_path_message(&MaskSuite, &msg, 0, 6),
        Err(Error::TreeError(_))
    ));
}

#[test]
fn propagation_fills_the_extended_path() {
    let mut tree = RatchetTree::new();
    for _ in 0..3 {
        tree.add_leaf_node(RatchetTreeNode::Blank);
    }
    assert!(tree.propogate_new_path_secret(&MaskSuite, vec![5; 32], 4).is_ok());
    assert_eq!(filled_pattern(&tree), vec![false, false, false, true, true]);
    let leaf_secret = tree.get(4).unwrap().get_secret().unwrap().clone();
    let root_secret = tree.get(3).unwrap().get_secret().unwrap().clone();
    assert_eq!(leaf_secret.len(), 32);
    assert_ne!(leaf_secret, root_secret);
    assert_ne!(leaf_secret, vec![5; 32]);
    // Each node's key pair is derived from its node secret.
    assert_eq!(public_key_of(&tree, 4), public_of(&leaf_secret));
    assert_eq!(tree.get(4).unwrap().get_private_key().unwrap().bytes, leaf_secret);
    // Starting one step higher with the next path secret gives the same root.
    let prk = molasses::crypto::hkdf_extract(&vec![5; 32]);
    let next = molasses::crypto::hkdf_expand_label(
        &prk,
        &molasses::crypto::path_label_bytes(),
        &Vec::new(),
    );
    let mut other = RatchetTree::new();
    for _ in 0..3 {
        other.add_leaf_node(RatchetTreeNode::Blank);
    }
    assert!(other.propogate_new_path_secret(&MaskSuite, next, 3).is_ok());
    assert_eq!(other.get(3).unwrap().get_secret().unwrap(), &root_secret);
}

#[test]
fn add_leaf_node_layout() {
    let mut tree = RatchetTree::new();
    assert_eq!(tree.size(), 0);
    assert!(tree.get_root_node().is_none());
    for tag in [10u8, 11, 12, 13] {
        tree.add_leaf_node(filled(tag));
    }
    assert_eq!(tree.size(), 7);
    assert_eq!(public_key_of(&tree, 0), vec![10]);
    assert_eq!(public_key_of(&tree, 2), vec![11]);
    assert_eq!(public_key_of(&tree, 4), vec![12]);
    assert_eq!(public_key_of(&tree, 6), vec![13]);
    for i in [1, 3, 5] {
        assert!(!tree.get(i).unwrap().is_filled());
    }
    assert!(tree.get(7).is_none());
    assert!(tree.get_root_node().is_some());
    assert!(!tree.get_root_node().unwrap().is_filled());
}

#[test]
fn truncate_to_last_nonblank_cases() {
    let mut tree = tree_of(&[true, false, true, false, false]);
    tree.truncate_to_last_nonblank();
    assert_eq!(filled_pattern(&tree), vec![true, false, true]);
    let mut tree = tree_of(&[false, false, false]);
    tree.truncate_to_last_nonblank();
    assert_eq!(tree.size(), 0);
    let mut tree = tree_of(&[true, true, false, true, false, false, false]);
    tree.truncate_to_last_nonblank();
    assert_eq!(filled_pattern(&tree), vec![true]);
    let mut tree = RatchetTree::new();
    tree.truncate_to_last_nonblank();
    assert_eq!(tree.size(), 0);
}

#[test]
fn sizes_stay_left_balanced() {
    let mut tree = RatchetTree::new();
    for round in 0..6u8 {
        tree.add_leaf_node(if round % 3 == 0 { filled(round) } else { RatchetTreeNode::Blank });
        assert_eq!(tree.size() % 2, 1);
        let mut cut = RatchetTree { nodes: Vec::new() };
        for i in 0..tree.size() {
            cut.nodes.push(if tree.get(i).unwrap().is_filled() { filled(i as u8) } else { RatchetTreeNode::Blank });
        }
        cut.truncate_to_last_nonblank();
        assert!(cut.size() == 0 || cut.size() % 2 == 1);
    }
}

#[test]
fn resolution_cases() {
    let tree = tree_of(&[true, false, true, false, false, false, true]);
    assert_eq!(tree.resolution(3), vec![0, 2, 6]);
    assert_eq!(tree.resolution(1), vec![0, 2]);
    assert_eq!(tree.resolution(5), vec![6]);
    assert_eq!(tree.resolution(4), Vec::<usize>::new());
    assert_eq!(tree.resolution(0), vec![0]);
    let tree = tree_of(&[false, true, false, false, true]);
    assert_eq!(tree.resolution(3), vec![1, 4]);
    let tree = tree_of(&[true, false, false, true, false, false, false, false, true]);
    assert_eq!(tree.resolution(7), vec![3, 8]);
    let tree = tree_of(&[false, false, false, false, false]);
    assert_eq!(tree.resolution(3), Vec::<usize>::new());
}

#[test]
fn resolution_is_sorted_and_filled_for_every_pattern() {
    for t in 0u32..(1 << 9) {
        let pattern: Vec<bool> = (0..9).map(|k| t & (1 << k) != 0).collect();
        let tree = tree_of(&pattern);
        for i in 0..9 {
            let res = tree.resolution(i);
            assert!(res.windows(2).all(|w| w[0] < w[1]));
            assert!(res.iter().all(|&k| pattern[k]));
            if pattern[i] {
                assert_eq!(res, vec![i]);
            }
        }
    }
}

#[test]
fn propogate_blank_twice_equals_once() {
    let mut once = full_tree(5);
    once.propogate_blank(2);
    assert_eq!(
        filled_pattern(&once),
        vec![true, false, true, false, true, true, true, false, true]
    );
    let mut twice = full_tree(5);
    twice.propogate_blank(2);
    twice.propogate_blank(2);
    assert_eq!(filled_pattern(&twice), filled_pattern(&once));
}

#[test]
fn node_updates() {
    let mut node = RatchetTreeNode::Blank;
    assert!(node.get_public_key().is_none());
    assert!(node.get_mut_node_secret(4).is_none());
    assert!(matches!(
        node.update_private_key(DhPrivateKey { bytes: vec![1] }),
        Err(Error::TreeError(_))
    ));
    assert!(matches!(node.update_secret(vec![1]), Err(Error::TreeError(_))));
    assert!(!node.is_filled());
    node.update_public_key(DhPublicKey { bytes: vec![9] });
    assert!(node.is_filled());
    assert!(node.get_private_key().is_none());
    assert!(node.get_secret().is_none());
    assert!(node.update_private_key(DhPrivateKey { bytes: vec![2] }).is_ok());
    assert_eq!(node.get_private_key().unwrap().bytes, vec![2]);
    {
        let secret = node.get_mut_node_secret(4).unwrap();
        assert_eq!(secret, &vec![0u8; 4]);
        secret[1] = 7;
    }
    assert_eq!(node.get_secret().unwrap(), &vec![0, 7, 0, 0]);
    assert!(node.update_secret(vec![3, 3]).is_ok());
    assert_eq!(node.get_mut_node_secret(9).unwrap(), &vec![3, 3]);
    node.update_public_key(DhPublicKey { bytes: vec![8] });
    assert_eq!(node.get_public_key().unwrap().bytes, vec![8]);
    assert!(node.get_private_key().is_none());
    assert!(node.get_secret().is_none());
}

#[test]
fn get_mut_writes_through() {
    let mut tree = tree_of(&[false, false, false]);
    tree.get_mut(2).unwrap().update_public_key(DhPublicKey { bytes: vec![4] });
    assert!(tree.get_mut(3).is_none());
    assert_eq!(filled_pattern(&tree), vec![false, false, true]);
}

#[test]
fn recipients_follow_the_path_and_resolutions() {
    let tree = full_tree(5);
    let plan = tree.direct_path_recipients(2).unwrap();
    // Leaf 2 of five leaves: ancestors 1, 3, 7; copath nodes 0, 5, 8.
    assert_eq!(plan, vec![(1, vec![0]), (3, vec![5]), (7, vec![8])]);
    let mut sparse = tree_of(&[true, true, true, true, false, false, false]);
    for i in [1usize, 3] {
        sparse.nodes[i] = RatchetTreeNode::Filled {
            public_key: DhPublicKey { bytes: vec![i as u8] },
            private_key: None,
            secret: Some(vec![1]),
        };
    }
    let plan = sparse.direct_path_recipients(0).unwrap();
    assert_eq!(plan, vec![(1, vec![2]), (3, vec![])]);
    assert!(matches!(sparse.direct_path_recipients(1), Err(Error::TreeError(_))));
    assert!(matches!(sparse.direct_path_recipients(6), Err(Error::TreeError(_))));
}

struct FailingSuite;

impl CipherSuite for FailingSuite {
    fn derive_key_pair(&self, _seed: &Vec<u8>) -> Result<(DhPublicKey, DhPrivateKey), Error> {
        Err(Error::EncryptionError)
    }

    fn ecies_encrypt<R: CryptoRng>(
        &self,
        _recipient: &DhPublicKey,
        _plaintext: &Vec<u8>,
        _csprng: &mut R,
    ) -> Result<EciesCiphertext, Error> {
        Err(Error::EncryptionError)
    }

    fn ecies_decrypt(&self, _key: &DhPrivateKey, _ct: &EciesCiphertext) -> Result<Vec<u8>, Error> {
        Err(Error::EncryptionError)
    }

    fn sign(&self, _key: &SigSecretKey, _msg: &Vec<u8>) -> Signature {
        Signature { bytes: vec![] }
    }
}

#[test]
fn encryption_without_recipients_needs_no_encryption() {
    let mut tree = RatchetTree::new();
    tree.add_leaf_node(RatchetTreeNode::Blank);
    assert!(tree.propogate_new_path_secret(&MaskSuite, vec![1; 32], 0).is_ok());
    let mut csprng = FixedRng(3);
    let msg = tree.encrypt_direct_path_secrets(&FailingSuite, 0, &mut csprng).unwrap();
    assert_eq!(msg.node_messages.len(), 1);
    assert_eq!(csprng.0, 3);
    let tree = full_tree(2);
    assert!(matches!(
        tree.encrypt_direct_path_secrets(&FailingSuite, 0, &mut csprng),
        Err(Error::EncryptionError)
    ));
    // An early refusal leaves the random source alone.
    assert!(matches!(
        tree.encrypt_direct_path_secrets(&MaskSuite, 1, &mut csprng),
        Err(Error::TreeError(_))
    ));
    assert_eq!(csprng.0, 3);
}

#[test]
fn find_ciphertext_names_key_and_ciphertext() {
    let tree = full_tree(4);
    let mut csprng = FixedRng(0);
    let msg = tree.encrypt_direct_path_secrets(&MaskSuite, 0, &mut csprng).unwrap();
    // Receiver 6: common ancestor 3 at position 2 of [0, 1, 3]; the copath
    // child is 5, whose resolution is [5].
    assert_eq!(tree.find_ciphertext(&msg, 0, 6).unwrap(), (2, 0, 5));
    assert_eq!(tree.find_ciphertext(&msg, 0, 2).unwrap(), (1, 0, 2));
    let short = molasses::handshake::DirectPathMessage { node_messages: Vec::new() };
    match tree.find_ciphertext(&short, 0, 6) {
        Err(Error::TreeError(text)) => assert_eq!(text, "Malformed DirectPathMessage"),
        other => panic!("unexpected {:?}", other),
    }
    assert!(matches!(
        tree.decrypt_direct_path_message(&FailingSuite, &msg, 0, 6),
        Err(Error::EncryptionError)
    ));
}

#[test]
fn failed_propagation_keeps_earlier_state() {
    let mut tree = tree_of(&[true, false, true]);
    assert!(matches!(
        tree.propogate_new_path_secret(&FailingSuite, vec![1; 32], 0),
        Err(Error::EncryptionError)
    ));
    assert_eq!(filled_pattern(&tree), vec![true, false, true]);
    assert!(tree.get(0).unwrap().get_secret().is_none());
}

#[test]
fn handshake_from_signature_fields() {
    let state = GroupState {
        epoch: 1,
        roster_index: 0,
        transcript_hash: vec![5],
        identity_key: SigSecretKey { bytes: vec![] },
        epoch_secrets: EpochSecrets { confirmation_key: vec![6] },
    };
    let h = Handshake::from_signature(
        &state,
        GroupOperation::Init(GroupInit {}),
        Signature { bytes: vec![8, 9] },
    )
    .unwrap();
    assert_eq!(h.signature.bytes, vec![8, 9]);
    let key = ring::hmac::Key::new(ring::hmac::HMAC_SHA256, &[6]);
    assert_eq!(h.confirmation, ring::hmac::sign(&key, &[5, 8, 9]).as_ref().to_vec());
}
