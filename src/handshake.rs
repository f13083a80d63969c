//! Handshake messages, the group operations they carry, and their assembly:
//! a signature over the transcript and a confirmation MAC over the signature.
use vstd::prelude::*;

use crate::crypto::{
    copy_bytes, hmac_sha256, hmac_sha256_of, CipherSuite, DhPublicKey, EciesCiphertext, Error,
    SigSecretKey, Signature, HASH_LEN, MAX_HASH_INPUT,
};

verus! {

/// The encrypted `WelcomeInfo` for a new participant: the id of the user init
/// key it answers, the cipher suite, and the ciphertext.
#[derive(Debug)]
pub struct Welcome {
    pub user_init_key_id: Vec<u8>,
    pub cipher_suite: u16,
    pub encrypted_welcome_info: EciesCiphertext,
}

/// A node's new public key and the node's new secret, encrypted for every
/// member of the resolution of the copath node below it.
#[derive(Debug)]
pub struct DirectPathNodeMessage {
    pub public_key: DhPublicKey,
    pub node_secrets: Vec<EciesCiphertext>,
}

/// The node messages of a direct path. The first one carries no ciphertext.
#[derive(Debug)]
pub struct DirectPathMessage {
    pub node_messages: Vec<DirectPathNodeMessage>,
}

/// Published keys with which a participant that was never contacted can be
/// added to a group: one init key per offered cipher suite.
#[derive(Debug)]
pub struct UserInitKey {
    pub user_init_key_id: Vec<u8>,
    pub supported_versions: Vec<u8>,
    pub cipher_suites: Vec<u16>,
    pub init_keys: Vec<DhPublicKey>,
    pub credential: Vec<u8>,
    pub signature: Signature,
}

/// Creates a group.
#[derive(Debug)]
pub struct GroupInit {}

/// Adds a participant at `index`.
#[derive(Debug)]
pub struct GroupAdd {
    pub index: u32,
    pub init_key: UserInitKey,
    pub welcome_info_hash: Vec<u8>,
}

/// Adds entropy to the group.
#[derive(Debug)]
pub struct GroupUpdate {
    pub path: DirectPathMessage,
}

/// Removes the participant at `removed`, with new entropy.
#[derive(Debug)]
pub struct GroupRemove {
    pub removed: u32,
    pub path: DirectPathMessage,
}

/// The operation that a handshake performs.
#[derive(Debug)]
pub enum GroupOperation {
    Init(GroupInit),
    Add(GroupAdd),
    Update(GroupUpdate),
    Remove(GroupRemove),
}

/// The secrets of an epoch that handshakes use.
#[derive(Debug)]
pub struct EpochSecrets {
    pub confirmation_key: Vec<u8>,
}

/// What a sender's group state gives to the handshakes it makes.
#[derive(Debug)]
pub struct GroupState {
    pub epoch: u32,
    pub roster_index: u32,
    pub transcript_hash: Vec<u8>,
    pub identity_key: SigSecretKey,
    pub epoch_secrets: EpochSecrets,
}

/// A handshake message: the operation, made at `prior_epoch` by the member at
/// `signer_index`, signed over the transcript, with a confirmation MAC.
#[derive(Debug)]
pub struct Handshake {
    pub prior_epoch: u32,
    pub operation: GroupOperation,
    pub signer_index: u32,
    pub signature: Signature,
    pub confirmation: Vec<u8>,
}

impl Handshake {
    /// Creates the handshake of `op` from `state` and the signature of its
    /// transcript hash: the confirmation is the HMAC, under the confirmation key,
    /// of the transcript hash followed by the signature. A signature too long to
    /// be MACed is refused.
    pub fn from_signature(state: &GroupState, op: GroupOperation, signature: Signature) -> (r:
        Result<Handshake, Error>)
        requires
            state.transcript_hash@.len() <= MAX_HASH_INPUT / 2,
            state.epoch_secrets.confirmation_key@.len() <= MAX_HASH_INPUT,
        ensures
            (signature.bytes@.len() <= MAX_HASH_INPUT / 2) == (r is Ok),
            r matches Ok(h) ==> {
                &&& h.prior_epoch == state.epoch
                &&& h.operation == op
                &&& h.signer_index == state.roster_index
                &&& h.signature == signature
                &&& h.confirmation@ == hmac_sha256_of(
                    state.epoch_secrets.confirmation_key@,
                    state.transcript_hash@ + signature.bytes@,
                )
                &&& h.confirmation@.len() == HASH_LEN
            },
            r matches Err(e) ==> e is SignatureError,
    {
        if signature.bytes.len() as u64 > MAX_HASH_INPUT / 2 {
            return Err(Error::SignatureError);
        }
        let mut confirmation_data = copy_bytes(&state.transcript_hash);
        let sig_bytes = signature.to_bytes();
        let mut i: usize = 0;
        while i < sig_bytes.len()
            invariant
                i <= sig_bytes@.len(),
                confirmation_data@ == state.transcript_hash@ + sig_bytes@.subrange(0, i as int),
            decreases sig_bytes@.len() - i,
        {
            confirmation_data.push(sig_bytes[i]);
            i = i + 1;
            proof {
                assert(confirmation_data@ =~= state.transcript_hash@ + sig_bytes@.subrange(
                    0,
                    i as int,
                ));
            }
        }
        proof {
            assert(sig_bytes@.subrange(0, sig_bytes@.len() as int) =~= sig_bytes@);
        }
        let confirmation = hmac_sha256(&state.epoch_secrets.confirmation_key, &confirmation_data);
        Ok(
            Handshake {
                prior_epoch: state.epoch,
                operation: op,
                signer_index: state.roster_index,
                signature,
                confirmation,
            },
        )
    }

    /// Creates the handshake of `op` from `state`: the signature is the cipher
    /// suite's signature of the transcript hash under the identity key, and the
    /// rest is as `from_signature` makes it.
    pub fn from_group_op<C: CipherSuite>(cs: &C, state: &GroupState, op: GroupOperation) -> (r:
        Result<Handshake, Error>)
        requires
            state.transcript_hash@.len() <= MAX_HASH_INPUT / 2,
            state.epoch_secrets.confirmation_key@.len() <= MAX_HASH_INPUT,
        ensures
            r matches Ok(h) ==> {
                &&& h.prior_epoch == state.epoch
                &&& h.operation == op
                &&& h.signer_index == state.roster_index
                &&& h.confirmation@ == hmac_sha256_of(
                    state.epoch_secrets.confirmation_key@,
                    state.transcript_hash@ + h.signature.bytes@,
                )
                &&& h.confirmation@.len() == HASH_LEN
            },
            r matches Err(e) ==> e is SignatureError,
    {
        let signature = cs.sign(&state.identity_key, &state.transcript_hash);
        Handshake::from_signature(state, op, signature)
    }
}

} // verus!
