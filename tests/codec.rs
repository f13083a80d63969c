use molasses::codec::{
    deserialize_direct_path_message, deserialize_tree, serialize_direct_path_message,
    serialize_tree,
};
use molasses::crypto::{DhPublicKey, EciesCiphertext, Error};
use molasses::handshake::{DirectPathMessage, DirectPathNodeMessage};
use molasses::ratchet_tree::{RatchetTree, RatchetTreeNode};

fn filled(pk: Vec<u8>) -> RatchetTreeNode {
    RatchetTreeNode::Filled {
        public_key: DhPublicKey { bytes: pk },
        private_key: None,
        secret: Some(vec![1, 2, 3]),
    }
}

fn sample_message() -> DirectPathMessage {
    DirectPathMessage {
        node_messages: vec![
            DirectPathNodeMessage { public_key: DhPublicKey { bytes: vec![9] }, node_secrets: vec![] },
            DirectPathNodeMessage {
                public_key: DhPublicKey { bytes: vec![8] },
                node_secrets: vec![EciesCiphertext {
                    ephemeral_public_key: DhPublicKey { bytes: vec![1] },
                    ciphertext: vec![2, 3],
                }],
            },
        ],
    }
}

#[test]
fn tree_encoding_layout() {
    let tree = RatchetTree {
        nodes: vec![filled(vec![1, 2]), RatchetTreeNode::Blank, filled(vec![])],
    };
    let bytes = serialize_tree(&tree).unwrap();
    assert_eq!(bytes, vec![0, 0, 0, 9, 1, 0, 2, 1, 2, 0, 1, 0, 0]);
    let back = deserialize_tree(&bytes).unwrap();
    assert_eq!(back.nodes.len(), 3);
    assert_eq!(back.nodes[0].get_public_key().unwrap().bytes, vec![1, 2]);
    assert!(!back.nodes[1].is_filled());
    assert_eq!(back.nodes[2].get_public_key().unwrap().bytes, Vec::<u8>::new());
    // Secrets are never written.
    assert!(back.nodes[0].get_secret().is_none());
    assert_eq!(serialize_tree(&back).unwrap(), bytes);
}

#[test]
fn tree_decoding_errors() {
    assert!(matches!(deserialize_tree(&vec![0, 0, 0]), Err(Error::SerializationError)));
    assert!(matches!(deserialize_tree(&vec![0, 0, 0, 1, 2]), Err(Error::SerializationError)));
    assert!(matches!(deserialize_tree(&vec![0, 0, 0, 2, 0]), Err(Error::SerializationError)));
    assert!(matches!(deserialize_tree(&vec![0, 0, 0, 3, 1, 0, 5]), Err(Error::SerializationError)));
    let empty = deserialize_tree(&vec![0, 0, 0, 0]).unwrap();
    assert_eq!(empty.nodes.len(), 0);
}

#[test]
fn tree_key_too_long_is_refused() {
    let tree = RatchetTree { nodes: vec![filled(vec![0; 0x1_0000])] };
    assert!(matches!(serialize_tree(&tree), Err(Error::SerializationError)));
}

#[test]
fn direct_path_message_layout() {
    let bytes = serialize_direct_path_message(&sample_message()).unwrap();
    assert_eq!(
        bytes,
        vec![0, 17, 0, 1, 9, 0, 0, 0, 1, 8, 0, 7, 0, 1, 1, 0, 2, 2, 3]
    );
    let back = deserialize_direct_path_message(&bytes).unwrap();
    assert_eq!(back.node_messages.len(), 2);
    assert_eq!(back.node_messages[1].node_secrets[0].ciphertext, vec![2, 3]);
    assert_eq!(back.node_messages[1].node_secrets[0].ephemeral_public_key.bytes, vec![1]);
    assert_eq!(serialize_direct_path_message(&back).unwrap(), bytes);
}

#[test]
fn direct_path_message_decoding_errors() {
    let mut bytes = serialize_direct_path_message(&sample_message()).unwrap();
    bytes.push(0);
    assert!(matches!(deserialize_direct_path_message(&bytes), Err(Error::SerializationError)));
    assert!(matches!(deserialize_direct_path_message(&vec![0]), Err(Error::SerializationError)));
    assert!(matches!(
        deserialize_direct_path_message(&vec![0, 3, 0, 1, 9]),
        Err(Error::SerializationError)
    ));
    let empty = deserialize_direct_path_message(&vec![0, 0]).unwrap();
    assert!(empty.node_messages.is_empty());
}

#[test]
fn direct_path_message_too_long_is_refused() {
    let mut m = sample_message();
    m.node_messages[1].node_secrets[0].ciphertext = vec![0; 0x1_0000];
    assert!(matches!(serialize_direct_path_message(&m), Err(Error::SerializationError)));
}

#[test]
fn decoded_tree_holds_no_secrets() {
    let tree = RatchetTree { nodes: vec![filled(vec![7]), RatchetTreeNode::Blank, filled(vec![8])] };
    let back = deserialize_tree(&serialize_tree(&tree).unwrap()).unwrap();
    for node in &back.nodes {
        assert!(node.get_secret().is_none());
        assert!(node.get_private_key().is_none());
    }
}
