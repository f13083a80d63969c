use molasses::crypto::{DhPublicKey, EciesCiphertext, Error, Signature};
use molasses::handshake::{
    DirectPathMessage, DirectPathNodeMessage, GroupAdd, GroupInit, GroupOperation, GroupRemove,
    GroupUpdate, Handshake, UserInitKey,
};
use molasses::message_codec::{deserialize_handshake, serialize_handshake};

fn path() -> DirectPathMessage {
    DirectPathMessage {
        node_messages: vec![DirectPathNodeMessage {
            public_key: DhPublicKey { bytes: vec![4, 5] },
            node_secrets: vec![EciesCiphertext {
                ephemeral_public_key: DhPublicKey { bytes: vec![6] },
                ciphertext: vec![7],
            }],
        }],
    }
}

fn init_key() -> UserInitKey {
    UserInitKey {
        user_init_key_id: vec![0xaa],
        supported_versions: vec![1, 1],
        cipher_suites: vec![0x0001, 0x0002],
        init_keys: vec![DhPublicKey { bytes: vec![0x11] }, DhPublicKey { bytes: vec![0x22, 0x33] }],
        credential: vec![0x44],
        signature: Signature { bytes: vec![0x55] },
    }
}

fn handshake(operation: GroupOperation) -> Handshake {
    Handshake {
        prior_epoch: 5,
        operation,
        signer_index: 2,
        signature: Signature { bytes: vec![7, 7] },
        confirmation: vec![9],
    }
}

#[test]
fn init_handshake_layout() {
    let bytes = serialize_handshake(&handshake(GroupOperation::Init(GroupInit {}))).unwrap();
    assert_eq!(bytes, vec![0, 0, 0, 5, 0, 0, 0, 0, 2, 0, 2, 7, 7, 1, 9]);
    let back = deserialize_handshake(&bytes).unwrap();
    assert_eq!(back.prior_epoch, 5);
    assert_eq!(back.signer_index, 2);
    assert_eq!(back.signature.bytes, vec![7, 7]);
    assert_eq!(back.confirmation, vec![9]);
    assert!(matches!(back.operation, GroupOperation::Init(_)));
}

#[test]
fn add_handshake_layout() {
    let op = GroupOperation::Add(GroupAdd {
        index: 3,
        init_key: init_key(),
        welcome_info_hash: vec![0xee],
    });
    let bytes = serialize_handshake(&handshake(op)).unwrap();
    let mut expected = vec![0, 0, 0, 5, 1, 0, 0, 0, 3];
    expected.extend_from_slice(&[1, 0xaa, 2, 1, 1, 4, 0, 1, 0, 2]);
    expected.extend_from_slice(&[0, 7, 0, 1, 0x11, 0, 2, 0x22, 0x33]);
    expected.extend_from_slice(&[0, 1, 0x44, 0, 1, 0x55, 1, 0xee]);
    expected.extend_from_slice(&[0, 0, 0, 2, 0, 2, 7, 7, 1, 9]);
    assert_eq!(bytes, expected);
    let back = deserialize_handshake(&bytes).unwrap();
    match &back.operation {
        GroupOperation::Add(a) => {
            assert_eq!(a.index, 3);
            assert_eq!(a.init_key.cipher_suites, vec![1, 2]);
            assert_eq!(a.init_key.init_keys[1].bytes, vec![0x22, 0x33]);
            assert_eq!(a.welcome_info_hash, vec![0xee]);
        }
        _ => panic!("expected an add"),
    }
    assert_eq!(serialize_handshake(&back).unwrap(), bytes);
}

#[test]
fn update_and_remove_round_trip() {
    for op in [
        GroupOperation::Update(GroupUpdate { path: path() }),
        GroupOperation::Remove(GroupRemove { removed: 0x01020304, path: path() }),
    ] {
        let bytes = serialize_handshake(&handshake(op)).unwrap();
        let back = deserialize_handshake(&bytes).unwrap();
        assert_eq!(serialize_handshake(&back).unwrap(), bytes);
    }
    let bytes = serialize_handshake(&handshake(GroupOperation::Remove(GroupRemove {
        removed: 0x01020304,
        path: path(),
    })))
    .unwrap();
    assert_eq!(&bytes[4..9], &[3, 1, 2, 3, 4]);
}

#[test]
fn handshake_encoding_errors() {
    let mut h = handshake(GroupOperation::Init(GroupInit {}));
    h.confirmation = vec![];
    assert!(matches!(serialize_handshake(&h), Err(Error::SerializationError)));
    let mut no_keys = init_key();
    no_keys.init_keys.clear();
    let add = GroupOperation::Add(GroupAdd { index: 0, init_key: no_keys, welcome_info_hash: vec![] });
    assert!(matches!(serialize_handshake(&handshake(add)), Err(Error::SerializationError)));
}

#[test]
fn handshake_decoding_errors() {
    let good = vec![0, 0, 0, 5, 0, 0, 0, 0, 2, 0, 2, 7, 7, 1, 9];
    let mut trailing = good.clone();
    trailing.push(0);
    assert!(matches!(deserialize_handshake(&trailing), Err(Error::SerializationError)));
    let mut bad_tag = good.clone();
    bad_tag[4] = 4;
    assert!(matches!(deserialize_handshake(&bad_tag), Err(Error::SerializationError)));
    let empty_confirmation = vec![0, 0, 0, 5, 0, 0, 0, 0, 2, 0, 2, 7, 7, 0];
    assert!(matches!(deserialize_handshake(&empty_confirmation), Err(Error::SerializationError)));
    assert!(matches!(deserialize_handshake(&good[..10].to_vec()), Err(Error::SerializationError)));
}
