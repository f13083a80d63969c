//! The wire format of handshakes and of the user init keys they carry, built
//! on the encodings of byte strings, vectors and direct-path messages.
use vstd::prelude::*;

use crate::codec::{
    dp_encodable, enc_nm_fn, law_direct_path_message_round_trip, lemma_nm_encodes_back,
    lemma_parsed_nms_fit, parse_nm_fn, dp_model, enc_dp, enc_list, enc_opaque16, encodes_back, lemma_list_encodes_back,
    lemma_list_parses_back, lemma_opaque16, lemma_opaque16_back, parse_dp, parse_list,
    parse_opaque16, parses_back, read16, read32,
};
use crate::codec::{
    copy_range, lemma_enc_list_push, parse_nms, parse_opaque16_at, push_opaque16, push_u16,
    push_u32, serialize_direct_path_message,
};
use crate::crypto::{be16, be32, push_all, DhPublicKey, Error, Signature};
use crate::handshake::{
    DirectPathMessage, GroupAdd, GroupInit, GroupOperation, GroupRemove, GroupUpdate, Handshake,
    UserInitKey,
};

verus! {

/// A byte string with a one-byte length.
pub open spec fn enc_opaque8(b: Seq<u8>) -> Seq<u8> {
    seq![b.len() as u8] + b
}

/// Reads a byte string with a one-byte length: the string and the bytes used.
pub open spec fn parse_opaque8(b: Seq<u8>) -> Option<(Seq<u8>, nat)> {
    if b.len() >= 1 && 1 + (b[0] as nat) <= b.len() {
        Some((b.subrange(1, 1 + b[0] as int), 1 + b[0] as nat))
    } else {
        None
    }
}

pub proof fn lemma_opaque8(x: Seq<u8>, rest: Seq<u8>)
    requires
        x.len() < 0x100,
    ensures
        parse_opaque8(enc_opaque8(x) + rest) == Some((x, 1 + x.len())),
        enc_opaque8(x).len() == 1 + x.len(),
{
    let b = enc_opaque8(x) + rest;
    assert(b[0] as nat == x.len());
    assert(b.subrange(1, 1 + x.len() as int) =~= x);
}

pub proof fn lemma_opaque8_back(b: Seq<u8>)
    requires
        parse_opaque8(b) is Some,
    ensures
        parse_opaque8(b) matches Some((x, c)) ==> enc_opaque8(x) == b.subrange(0, c as int)
            && x.len() < 0x100 && c == 1 + x.len(),
{
    let l = b[0] as int;
    assert(enc_opaque8(b.subrange(1, 1 + l)) =~= b.subrange(0, 1 + l));
}

/// A two-byte value.
pub open spec fn enc_u16_fn() -> spec_fn(u16) -> Seq<u8> {
    |v: u16| be16(v as nat)
}

pub open spec fn parse_u16(b: Seq<u8>) -> Option<(u16, nat)> {
    if b.len() >= 2 {
        Some((read16(b) as u16, 2))
    } else {
        None
    }
}

pub open spec fn parse_u16_fn() -> spec_fn(Seq<u8>) -> Option<(u16, nat)> {
    |b: Seq<u8>| parse_u16(b)
}

pub open spec fn enc_opaque16_fn() -> spec_fn(Seq<u8>) -> Seq<u8> {
    |b: Seq<u8>| enc_opaque16(b)
}

pub open spec fn parse_opaque16_fn() -> spec_fn(Seq<u8>) -> Option<(Seq<u8>, nat)> {
    |b: Seq<u8>| parse_opaque16(b)
}

pub proof fn lemma_u16_parses_back(v: u16)
    ensures
        parses_back(parse_u16_fn(), enc_u16_fn(), v),
{
    assert forall|rest: Seq<u8>| #[trigger] parse_u16_fn()(enc_u16_fn()(v) + rest) == Some(
        (v, enc_u16_fn()(v).len()),
    ) by {
        let b = be16(v as nat) + rest;
        crate::codec::lemma_be16(v as nat);
        assert(b[0] == be16(v as nat)[0] && b[1] == be16(v as nat)[1]);
        assert(read16(b) == read16(be16(v as nat)));
    }
}

pub proof fn lemma_u16_encodes_back()
    ensures
        encodes_back(parse_u16_fn(), enc_u16_fn()),
{
    assert forall|b: Seq<u8>|
        (#[trigger] parse_u16_fn()(b) matches Some((x, c)) ==> 0 < c <= b.len() && enc_u16_fn()(x)
            == b.subrange(0, c as int)) by {
        if b.len() >= 2 {
            crate::codec::lemma_read16_bound(b);
        }
    }
}

pub proof fn lemma_key_parses_back(k: Seq<u8>)
    requires
        k.len() < 0x1_0000,
    ensures
        parses_back(parse_opaque16_fn(), enc_opaque16_fn(), k),
{
    assert forall|rest: Seq<u8>| #[trigger] parse_opaque16_fn()(enc_opaque16_fn()(k) + rest)
        == Some((k, enc_opaque16_fn()(k).len())) by {
        lemma_opaque16(k, rest);
    }
}

pub proof fn lemma_key_encodes_back()
    ensures
        encodes_back(parse_opaque16_fn(), enc_opaque16_fn()),
{
    assert forall|b: Seq<u8>|
        (#[trigger] parse_opaque16_fn()(b) matches Some((x, c)) ==> 0 < c <= b.len()
            && enc_opaque16_fn()(x) == b.subrange(0, c as int)) by {
        if parse_opaque16(b) is Some {
            lemma_opaque16_back(b);
        }
    }
}

/// What a user init key says on the wire: its id, versions, cipher suites,
/// init keys, credential and signature.
pub struct UserInitKeyModel {
    pub id: Seq<u8>,
    pub versions: Seq<u8>,
    pub suites: Seq<u16>,
    pub keys: Seq<Seq<u8>>,
    pub credential: Seq<u8>,
    pub signature: Seq<u8>,
}

/// A user init key: the id, versions and cipher suites with one-byte lengths,
/// the init keys with a two-byte length, then credential and signature with
/// two-byte lengths.
#[verifier::opaque]
pub open spec fn enc_uik(u: UserInitKeyModel) -> Seq<u8> {
    enc_opaque8(u.id) + enc_opaque8(u.versions) + enc_opaque8(enc_list(enc_u16_fn(), u.suites))
        + enc_opaque16(enc_list(enc_opaque16_fn(), u.keys)) + enc_opaque16(u.credential)
        + enc_opaque16(u.signature)
}

/// A user init key that can be written, and that a reader accepts.
pub open spec fn uik_fits(u: UserInitKeyModel) -> bool {
    &&& u.id.len() < 0x100
    &&& u.versions.len() < 0x100
    &&& enc_list(enc_u16_fn(), u.suites).len() < 0x100
    &&& u.keys.len() >= 1
    &&& forall|k: int| 0 <= k < u.keys.len() ==> (#[trigger] u.keys[k]).len() < 0x1_0000
    &&& enc_list(enc_opaque16_fn(), u.keys).len() < 0x1_0000
    &&& u.credential.len() < 0x1_0000
    &&& u.signature.len() < 0x1_0000
}

/// The bytes of `b` after the first `c`.
pub open spec fn after(b: Seq<u8>, c: nat) -> Seq<u8> {
    b.subrange(c as int, b.len() as int)
}

#[verifier::opaque]
pub open spec fn parse_uik(b: Seq<u8>) -> Option<(UserInitKeyModel, nat)> {
    match parse_opaque8(b) {
        None => None,
        Some((id, c1)) => match parse_opaque8(after(b, c1)) {
            None => None,
            Some((versions, c2)) => match parse_opaque8(after(b, c1 + c2)) {
                None => None,
                Some((sb, c3)) => match parse_list(parse_u16_fn(), sb) {
                    None => None,
                    Some(suites) => match parse_opaque16(after(b, c1 + c2 + c3)) {
                        None => None,
                        Some((kb, c4)) => match parse_list(parse_opaque16_fn(), kb) {
                            None => None,
                            Some(keys) => if keys.len() == 0 {
                                None
                            } else {
                                match parse_opaque16(after(b, c1 + c2 + c3 + c4)) {
                                    None => None,
                                    Some((credential, c5)) => match parse_opaque16(
                                        after(b, c1 + c2 + c3 + c4 + c5),
                                    ) {
                                        None => None,
                                        Some((signature, c6)) => Some(
                                            (
                                                UserInitKeyModel {
                                                    id,
                                                    versions,
                                                    suites,
                                                    keys,
                                                    credential,
                                                    signature,
                                                },
                                                c1 + c2 + c3 + c4 + c5 + c6,
                                            ),
                                        ),
                                    },
                                }
                            },
                        },
                    },
                },
            },
        },
    }
}

proof fn lemma_after(x: Seq<u8>, rest: Seq<u8>)
    ensures
        after(x + rest, x.len()) == rest,
{
    assert(after(x + rest, x.len()) =~= rest);
}

proof fn lemma_after_after(b: Seq<u8>, c: nat, d: nat)
    requires
        c + d <= b.len(),
    ensures
        after(after(b, c), d) == after(b, c + d),
{
    assert(after(after(b, c), d) =~= after(b, c + d));
}

/// Writing a user init key and reading it back gives the same key, followed by
/// whatever came after it.
#[verifier::rlimit(100)]
#[verifier::spinoff_prover]
pub proof fn law_user_init_key_round_trip(u: UserInitKeyModel, rest: Seq<u8>)
    requires
        uik_fits(u),
    ensures
        parse_uik(enc_uik(u) + rest) == Some((u, enc_uik(u).len())),
{
    reveal(parse_uik);
    reveal(enc_uik);
    let sb = enc_list(enc_u16_fn(), u.suites);
    let kb = enc_list(enc_opaque16_fn(), u.keys);
    assert forall|k: int| 0 <= k < u.suites.len() implies parses_back(
        parse_u16_fn(),
        enc_u16_fn(),
        #[trigger] u.suites[k],
    ) by {
        lemma_u16_parses_back(u.suites[k]);
    }
    lemma_list_parses_back(parse_u16_fn(), enc_u16_fn(), u.suites);
    assert forall|k: int| 0 <= k < u.keys.len() implies parses_back(
        parse_opaque16_fn(),
        enc_opaque16_fn(),
        #[trigger] u.keys[k],
    ) by {
        lemma_key_parses_back(u.keys[k]);
    }
    lemma_list_parses_back(parse_opaque16_fn(), enc_opaque16_fn(), u.keys);
    let sig_on = enc_opaque16(u.signature) + rest;
    let credential_on = enc_opaque16(u.credential) + sig_on;
    let keys_on = enc_opaque16(kb) + credential_on;
    let suites_on = enc_opaque8(sb) + keys_on;
    let versions_on = enc_opaque8(u.versions) + suites_on;
    let b = enc_opaque8(u.id) + versions_on;
    assert(b =~= enc_uik(u) + rest);
    lemma_opaque8(u.id, versions_on);
    lemma_after(enc_opaque8(u.id), versions_on);
    lemma_opaque8(u.versions, suites_on);
    lemma_after(enc_opaque8(u.versions), suites_on);
    lemma_after_after(b, enc_opaque8(u.id).len(), enc_opaque8(u.versions).len());
    lemma_opaque8(sb, keys_on);
    lemma_after(enc_opaque8(sb), keys_on);
    lemma_after_after(
        b,
        enc_opaque8(u.id).len() + enc_opaque8(u.versions).len(),
        enc_opaque8(sb).len(),
    );
    lemma_opaque16(kb, credential_on);
    lemma_after(enc_opaque16(kb), credential_on);
    lemma_after_after(
        b,
        enc_opaque8(u.id).len() + enc_opaque8(u.versions).len() + enc_opaque8(sb).len(),
        enc_opaque16(kb).len(),
    );
    lemma_opaque16(u.credential, sig_on);
    lemma_after(enc_opaque16(u.credential), sig_on);
    lemma_after_after(
        b,
        enc_opaque8(u.id).len() + enc_opaque8(u.versions).len() + enc_opaque8(sb).len()
            + enc_opaque16(kb).len(),
        enc_opaque16(u.credential).len(),
    );
    lemma_opaque16(u.signature, rest);
}

/// Reading a user init key and writing it again gives the bytes that were read.
#[verifier::rlimit(100)]
#[verifier::spinoff_prover]
pub proof fn law_user_init_key_bytes_round_trip(b: Seq<u8>)
    requires
        parse_uik(b) is Some,
    ensures
        parse_uik(b) matches Some((u, c)) ==> c <= b.len() && enc_uik(u) == b.subrange(0, c as int)
            && uik_fits(u),
{
    reveal(parse_uik);
    reveal(enc_uik);
    let (id, c1) = parse_opaque8(b)->0;
    lemma_opaque8_back(b);
    let b1 = after(b, c1);
    let (versions, c2) = parse_opaque8(b1)->0;
    lemma_opaque8_back(b1);
    lemma_after_after(b, c1, c2);
    let b2 = after(b, c1 + c2);
    let (sb, c3) = parse_opaque8(b2)->0;
    lemma_opaque8_back(b2);
    lemma_after_after(b, c1 + c2, c3);
    lemma_u16_encodes_back();
    lemma_list_encodes_back(parse_u16_fn(), enc_u16_fn(), sb);
    let b3 = after(b, c1 + c2 + c3);
    let (kb, c4) = parse_opaque16(b3)->0;
    lemma_opaque16_back(b3);
    lemma_after_after(b, c1 + c2 + c3, c4);
    lemma_key_encodes_back();
    lemma_list_encodes_back(parse_opaque16_fn(), enc_opaque16_fn(), kb);
    let b4 = after(b, c1 + c2 + c3 + c4);
    let (credential, c5) = parse_opaque16(b4)->0;
    lemma_opaque16_back(b4);
    lemma_after_after(b, c1 + c2 + c3 + c4, c5);
    let b5 = after(b, c1 + c2 + c3 + c4 + c5);
    let (signature, c6) = parse_opaque16(b5)->0;
    lemma_opaque16_back(b5);
    let (u, cu) = parse_uik(b)->0;
    let c = c1 + c2 + c3 + c4 + c5 + c6;
    assert(b.subrange(0, c as int) =~= b.subrange(0, c1 as int) + b1.subrange(0, c2 as int)
        + b2.subrange(0, c3 as int) + b3.subrange(0, c4 as int) + b4.subrange(0, c5 as int)
        + b5.subrange(0, c6 as int));
    lemma_parsed_keys_fit(kb);
}

/// The keys that a reader accepts fit a two-byte length.
proof fn lemma_parsed_keys_fit(b: Seq<u8>)
    requires
        parse_list(parse_opaque16_fn(), b) is Some,
    ensures
        forall|k: int|
            0 <= k < parse_list(parse_opaque16_fn(), b)->0.len() ==> (#[trigger] parse_list(
                parse_opaque16_fn(),
                b,
            )->0[k]).len() < 0x1_0000,
    decreases b.len(),
{
    if b.len() > 0 {
        let (x, c) = parse_opaque16(b)->0;
        let tail = b.subrange(c as int, b.len() as int);
        lemma_parsed_keys_fit(tail);
        lemma_opaque16_back(b);
        let xs = parse_list(parse_opaque16_fn(), b)->0;
        let rest = parse_list(parse_opaque16_fn(), tail)->0;
        assert(xs == seq![x] + rest);
        assert forall|k: int| 0 <= k < xs.len() implies (#[trigger] xs[k]).len() < 0x1_0000 by {
            if k > 0 {
                assert(xs[k] == rest[k - 1]);
            }
        }
    }
}

/// A direct-path message read from the start of `b`, and the bytes used.
pub open spec fn parse_dp_prefix(b: Seq<u8>) -> Option<(Seq<(Seq<u8>, Seq<(Seq<u8>, Seq<u8>)>)>, nat)> {
    match parse_opaque16(b) {
        Some((body, c)) => match parse_list(parse_nm_fn(), body) {
            Some(ms) => Some((ms, c)),
            None => None,
        },
        None => None,
    }
}

proof fn lemma_dp_prefix(ms: Seq<(Seq<u8>, Seq<(Seq<u8>, Seq<u8>)>)>, rest: Seq<u8>)
    requires
        dp_encodable(ms),
    ensures
        parse_dp_prefix(enc_dp(ms) + rest) == Some((ms, enc_dp(ms).len())),
{
    law_direct_path_message_round_trip(ms);
    let body = enc_list(enc_nm_fn(), ms);
    lemma_opaque16(body, rest);
    lemma_opaque16(body, seq![]);
    assert(enc_dp(ms) + Seq::<u8>::empty() =~= enc_dp(ms));
}

proof fn lemma_dp_prefix_back(b: Seq<u8>)
    requires
        parse_dp_prefix(b) is Some,
    ensures
        parse_dp_prefix(b) matches Some((ms, c)) ==> c <= b.len() && enc_dp(ms) == b.subrange(
            0,
            c as int,
        ) && dp_encodable(ms),
{
    lemma_opaque16_back(b);
    let (body, c) = parse_opaque16(b)->0;
    lemma_nm_encodes_back();
    lemma_list_encodes_back(parse_nm_fn(), enc_nm_fn(), body);
    let ms = parse_list(parse_nm_fn(), body)->0;
    lemma_parsed_nms_fit(body);
}

/// What a group operation says on the wire.
pub enum OperationModel {
    Init,
    Add(u32, UserInitKeyModel, Seq<u8>),
    Update(Seq<(Seq<u8>, Seq<(Seq<u8>, Seq<u8>)>)>),
    Remove(u32, Seq<(Seq<u8>, Seq<(Seq<u8>, Seq<u8>)>)>),
}

/// What a handshake says on the wire.
pub struct HandshakeModel {
    pub prior_epoch: u32,
    pub operation: OperationModel,
    pub signer_index: u32,
    pub signature: Seq<u8>,
    pub confirmation: Seq<u8>,
}

/// A group operation: its tag, then its fields.
pub open spec fn enc_op(op: OperationModel) -> Seq<u8> {
    match op {
        OperationModel::Init => seq![0u8],
        OperationModel::Add(index, init_key, hash) => seq![1u8] + be32(index as nat) + enc_uik(
            init_key,
        ) + enc_opaque8(hash),
        OperationModel::Update(path) => seq![2u8] + enc_dp(path),
        OperationModel::Remove(removed, path) => seq![3u8] + be32(removed as nat) + enc_dp(path),
    }
}

/// A handshake: the prior epoch, the operation, the signer's index, the
/// signature with a two-byte length and the confirmation with a one-byte one.
pub open spec fn enc_handshake(h: HandshakeModel) -> Seq<u8> {
    be32(h.prior_epoch as nat) + enc_op(h.operation) + be32(h.signer_index as nat) + enc_opaque16(
        h.signature,
    ) + enc_opaque8(h.confirmation)
}

pub open spec fn op_fits(op: OperationModel) -> bool {
    match op {
        OperationModel::Init => true,
        OperationModel::Add(_, init_key, hash) => uik_fits(init_key) && hash.len() < 0x100,
        OperationModel::Update(path) => dp_encodable(path),
        OperationModel::Remove(_, path) => dp_encodable(path),
    }
}

/// A handshake that can be written, and that a reader accepts: the
/// confirmation holds one to 255 bytes.
pub open spec fn handshake_fits(h: HandshakeModel) -> bool {
    &&& op_fits(h.operation)
    &&& h.signature.len() < 0x1_0000
    &&& 1 <= h.confirmation.len() < 0x100
}

pub open spec fn parse_op(b: Seq<u8>) -> Option<(OperationModel, nat)> {
    if b.len() == 0 {
        None
    } else if b[0] == 0 {
        Some((OperationModel::Init, 1))
    } else if b[0] == 1 {
        if b.len() < 5 {
            None
        } else {
            match parse_uik(after(b, 5)) {
                None => None,
                Some((init_key, c)) => match parse_opaque8(after(b, 5 + c)) {
                    None => None,
                    Some((hash, d)) => Some(
                        (OperationModel::Add(read32(after(b, 1)) as u32, init_key, hash), 5 + c + d),
                    ),
                },
            }
        }
    } else if b[0] == 2 {
        match parse_dp_prefix(after(b, 1)) {
            None => None,
            Some((path, c)) => Some((OperationModel::Update(path), 1 + c)),
        }
    } else if b[0] == 3 {
        if b.len() < 5 {
            None
        } else {
            match parse_dp_prefix(after(b, 5)) {
                None => None,
                Some((path, c)) => Some(
                    (OperationModel::Remove(read32(after(b, 1)) as u32, path), 5 + c),
                ),
            }
        }
    } else {
        None
    }
}

/// Reads a handshake from all of `b`.
pub open spec fn parse_handshake(b: Seq<u8>) -> Option<HandshakeModel> {
    if b.len() < 4 {
        None
    } else {
        match parse_op(after(b, 4)) {
            None => None,
            Some((operation, c)) => if after(b, 4 + c).len() < 4 {
                None
            } else {
                match parse_opaque16(after(b, 8 + c)) {
                    None => None,
                    Some((signature, d)) => match parse_opaque8(after(b, 8 + c + d)) {
                        None => None,
                        Some((confirmation, e)) => if 8 + c + d + e == b.len()
                            && confirmation.len() >= 1 {
                            Some(
                                HandshakeModel {
                                    prior_epoch: read32(b) as u32,
                                    operation,
                                    signer_index: read32(after(b, 4 + c)) as u32,
                                    signature,
                                    confirmation,
                                },
                            )
                        } else {
                            None
                        },
                    },
                }
            },
        }
    }
}

proof fn lemma_u32_at(v: u32, rest: Seq<u8>)
    ensures
        read32(be32(v as nat) + rest) as u32 == v,
        (be32(v as nat) + rest).len() == 4 + rest.len(),
        after(be32(v as nat) + rest, 4) == rest,
{
    crate::codec::lemma_be32(v as nat);
    let b = be32(v as nat) + rest;
    assert(b[0] == be32(v as nat)[0] && b[1] == be32(v as nat)[1] && b[2] == be32(v as nat)[2]
        && b[3] == be32(v as nat)[3]);
    assert(read32(b) == read32(be32(v as nat)));
    lemma_after(be32(v as nat), rest);
}

#[verifier::rlimit(100)]
#[verifier::spinoff_prover]
proof fn lemma_op_round_trip(op: OperationModel, rest: Seq<u8>)
    requires
        op_fits(op),
    ensures
        parse_op(enc_op(op) + rest) == Some((op, enc_op(op).len())),
{
    let b = enc_op(op) + rest;
    match op {
        OperationModel::Init => {},
        OperationModel::Add(index, init_key, hash) => {
            let t = enc_uik(init_key) + (enc_opaque8(hash) + rest);
            assert(b =~= seq![1u8] + (be32(index as nat) + t));
            lemma_after(seq![1u8], be32(index as nat) + t);
            lemma_u32_at(index, t);
            lemma_after_after(b, 1, 4);
            law_user_init_key_round_trip(init_key, enc_opaque8(hash) + rest);
            lemma_after(enc_uik(init_key), enc_opaque8(hash) + rest);
            lemma_after_after(b, 5, enc_uik(init_key).len());
            lemma_opaque8(hash, rest);
        },
        OperationModel::Update(path) => {
            assert(b =~= seq![2u8] + (enc_dp(path) + rest));
            lemma_after(seq![2u8], enc_dp(path) + rest);
            lemma_dp_prefix(path, rest);
        },
        OperationModel::Remove(removed, path) => {
            let t = enc_dp(path) + rest;
            assert(b =~= seq![3u8] + (be32(removed as nat) + t));
            lemma_after(seq![3u8], be32(removed as nat) + t);
            lemma_u32_at(removed, t);
            lemma_after_after(b, 1, 4);
            lemma_dp_prefix(path, rest);
        },
    }
}

#[verifier::rlimit(100)]
#[verifier::spinoff_prover]
proof fn lemma_op_bytes(b: Seq<u8>)
    requires
        parse_op(b) is Some,
    ensures
        parse_op(b) matches Some((op, c)) ==> c <= b.len() && enc_op(op) == b.subrange(0, c as int)
            && op_fits(op),
{
    let (op, c) = parse_op(b)->0;
    if b[0] == 0 {
        assert(enc_op(op) =~= b.subrange(0, 1));
    } else if b[0] == 1 {
        let (init_key, cu) = parse_uik(after(b, 5))->0;
        law_user_init_key_bytes_round_trip(after(b, 5));
        lemma_after_after(b, 5, cu);
        lemma_opaque8_back(after(b, 5 + cu));
        let (hash, d) = parse_opaque8(after(b, 5 + cu))->0;
        crate::codec::lemma_read32_bound(after(b, 1));
        assert(after(b, 1).subrange(0, 4) =~= b.subrange(1, 5));
        assert(b.subrange(0, c as int) =~= seq![1u8] + b.subrange(1, 5) + after(b, 5).subrange(
            0,
            cu as int,
        ) + after(b, 5 + cu).subrange(0, d as int));
        assert(enc_op(op) =~= b.subrange(0, c as int));
    } else if b[0] == 2 {
        lemma_dp_prefix_back(after(b, 1));
        let (path, cp) = parse_dp_prefix(after(b, 1))->0;
        assert(b.subrange(0, c as int) =~= seq![2u8] + after(b, 1).subrange(0, cp as int));
    } else {
        lemma_dp_prefix_back(after(b, 5));
        let (path, cp) = parse_dp_prefix(after(b, 5))->0;
        crate::codec::lemma_read32_bound(after(b, 1));
        assert(after(b, 1).subrange(0, 4) =~= b.subrange(1, 5));
        assert(b.subrange(0, c as int) =~= seq![3u8] + b.subrange(1, 5) + after(b, 5).subrange(
            0,
            cp as int,
        ));
    }
}

/// Writing a handshake and reading it back gives the same handshake.
#[verifier::rlimit(100)]
#[verifier::spinoff_prover]
pub proof fn law_handshake_round_trip(h: HandshakeModel)
    requires
        handshake_fits(h),
    ensures
        parse_handshake(enc_handshake(h)) == Some(h),
{
    let t3 = enc_opaque16(h.signature) + enc_opaque8(h.confirmation);
    let t2 = be32(h.signer_index as nat) + t3;
    let t1 = enc_op(h.operation) + t2;
    let b = be32(h.prior_epoch as nat) + t1;
    assert(b =~= enc_handshake(h));
    lemma_u32_at(h.prior_epoch, t1);
    lemma_op_round_trip(h.operation, t2);
    lemma_after(enc_op(h.operation), t2);
    let c = enc_op(h.operation).len();
    lemma_after_after(b, 4, c);
    lemma_u32_at(h.signer_index, t3);
    lemma_after_after(b, 4 + c, 4);
    lemma_opaque16(h.signature, enc_opaque8(h.confirmation));
    lemma_after(enc_opaque16(h.signature), enc_opaque8(h.confirmation));
    lemma_after_after(b, 8 + c, enc_opaque16(h.signature).len());
    lemma_opaque8(h.confirmation, seq![]);
    assert(enc_opaque8(h.confirmation) + Seq::<u8>::empty() =~= enc_opaque8(h.confirmation));
}

/// Reading a handshake and writing it again gives the same bytes.
#[verifier::rlimit(100)]
#[verifier::spinoff_prover]
pub proof fn law_handshake_bytes_round_trip(b: Seq<u8>)
    requires
        parse_handshake(b) is Some,
    ensures
        handshake_fits(parse_handshake(b)->0),
        enc_handshake(parse_handshake(b)->0) == b,
{
    let h = parse_handshake(b)->0;
    let (op, c) = parse_op(after(b, 4))->0;
    lemma_op_bytes(after(b, 4));
    lemma_after_after(b, 4, c);
    let (sig, d) = parse_opaque16(after(b, 8 + c))->0;
    lemma_after_after(b, 4 + c, 4);
    lemma_opaque16_back(after(b, 8 + c));
    lemma_after_after(b, 8 + c, d);
    let (conf, e) = parse_opaque8(after(b, 8 + c + d))->0;
    lemma_opaque8_back(after(b, 8 + c + d));
    crate::codec::lemma_read32_bound(b);
    crate::codec::lemma_read32_bound(after(b, 4 + c));
    assert(after(b, 4 + c).subrange(0, 4) =~= b.subrange(4 + c as int, 8 + c as int));
    assert(b =~= b.subrange(0, 4) + after(b, 4).subrange(0, c as int) + b.subrange(
        4 + c as int,
        8 + c as int,
    ) + after(b, 8 + c).subrange(0, d as int) + after(b, 8 + c + d).subrange(0, e as int));
}

/// What a user init key says on the wire.
pub open spec fn uik_model(u: UserInitKey) -> UserInitKeyModel {
    UserInitKeyModel {
        id: u.user_init_key_id@,
        versions: u.supported_versions@,
        suites: u.cipher_suites@,
        keys: u.init_keys@.map_values(|k: DhPublicKey| k.bytes@),
        credential: u.credential@,
        signature: u.signature.bytes@,
    }
}

/// What a group operation says on the wire.
pub open spec fn op_model(op: GroupOperation) -> OperationModel {
    match op {
        GroupOperation::Init(_) => OperationModel::Init,
        GroupOperation::Add(a) => OperationModel::Add(
            a.index,
            uik_model(a.init_key),
            a.welcome_info_hash@,
        ),
        GroupOperation::Update(u) => OperationModel::Update(dp_model(u.path)),
        GroupOperation::Remove(r) => OperationModel::Remove(r.removed, dp_model(r.path)),
    }
}

/// What a handshake says on the wire.
pub open spec fn handshake_model(h: Handshake) -> HandshakeModel {
    HandshakeModel {
        prior_epoch: h.prior_epoch,
        operation: op_model(h.operation),
        signer_index: h.signer_index,
        signature: h.signature.bytes@,
        confirmation: h.confirmation@,
    }
}

fn push_opaque8(out: &mut Vec<u8>, b: &Vec<u8>)
    requires
        b@.len() < 0x100,
    ensures
        final(out)@ == old(out)@ + enc_opaque8(b@),
{
    out.push(b.len() as u8);
    push_all(out, b);
    proof {
        assert(out@ =~= old(out)@ + enc_opaque8(b@));
    }
}

fn serialize_uik(u: &UserInitKey) -> (r: Option<Vec<u8>>)
    ensures
        uik_fits(uik_model(*u)) ==> (r matches Some(v) && v@ == enc_uik(uik_model(*u))),
        !uik_fits(uik_model(*u)) ==> r is None,
{
    reveal(enc_uik);
    let ghost m = uik_model(*u);
    let mut suites: Vec<u8> = Vec::new();
    let mut i: usize = 0;
    while i < u.cipher_suites.len()
        invariant
            i <= u.cipher_suites@.len(),
            m == uik_model(*u),
            suites@ == enc_list(enc_u16_fn(), m.suites.subrange(0, i as int)),
        decreases u.cipher_suites@.len() - i,
    {
        proof {
            lemma_enc_list_push(enc_u16_fn(), m.suites.subrange(0, i as int), m.suites[i as int]);
            assert(m.suites.subrange(0, i as int).push(m.suites[i as int]) =~= m.suites.subrange(
                0,
                i + 1,
            ));
        }
        push_u16(&mut suites, u.cipher_suites[i] as usize);
        i = i + 1;
    }
    proof {
        assert(m.suites.subrange(0, i as int) =~= m.suites);
    }
    let mut keys: Vec<u8> = Vec::new();
    let mut i: usize = 0;
    while i < u.init_keys.len()
        invariant
            i <= u.init_keys@.len(),
            m == uik_model(*u),
            keys@ == enc_list(enc_opaque16_fn(), m.keys.subrange(0, i as int)),
            forall|k: int| 0 <= k < i ==> (#[trigger] m.keys[k]).len() < 0x1_0000,
        decreases u.init_keys@.len() - i,
    {
        proof {
            lemma_enc_list_push(enc_opaque16_fn(), m.keys.subrange(0, i as int), m.keys[i as int]);
            assert(m.keys.subrange(0, i as int).push(m.keys[i as int]) =~= m.keys.subrange(
                0,
                i + 1,
            ));
        }
        if u.init_keys[i].bytes.len() >= 0x1_0000 {
            proof {
                assert(m.keys[i as int].len() >= 0x1_0000);
            }
            return None;
        }
        push_opaque16(&mut keys, &u.init_keys[i].bytes);
        i = i + 1;
    }
    proof {
        assert(m.keys.subrange(0, i as int) =~= m.keys);
    }
    if u.user_init_key_id.len() >= 0x100 || u.supported_versions.len() >= 0x100 || suites.len()
        >= 0x100 || u.init_keys.len() == 0 || keys.len() >= 0x1_0000 || u.credential.len()
        >= 0x1_0000 || u.signature.bytes.len() >= 0x1_0000 {
        return None;
    }
    let mut out: Vec<u8> = Vec::new();
    push_opaque8(&mut out, &u.user_init_key_id);
    push_opaque8(&mut out, &u.supported_versions);
    push_opaque8(&mut out, &suites);
    push_opaque16(&mut out, &keys);
    push_opaque16(&mut out, &u.credential);
    push_opaque16(&mut out, &u.signature.bytes);
    proof {
        assert(out@ =~= enc_uik(m));
    }
    Some(out)
}

fn serialize_op(op: &GroupOperation) -> (r: Option<Vec<u8>>)
    ensures
        op_fits(op_model(*op)) ==> (r matches Some(v) && v@ == enc_op(op_model(*op))),
        !op_fits(op_model(*op)) ==> r is None,
{
    let mut out: Vec<u8> = Vec::new();
    match op {
        GroupOperation::Init(_) => {
            out.push(0u8);
            proof {
                assert(out@ =~= enc_op(op_model(*op)));
            }
        },
        GroupOperation::Add(a) => {
            let uik = match serialize_uik(&a.init_key) {
                Some(v) => v,
                None => {
                    return None;
                },
            };
            if a.welcome_info_hash.len() >= 0x100 {
                return None;
            }
            out.push(1u8);
            push_u32(&mut out, a.index as usize);
            push_all(&mut out, &uik);
            push_opaque8(&mut out, &a.welcome_info_hash);
            proof {
                assert(out@ =~= enc_op(op_model(*op)));
            }
        },
        GroupOperation::Update(u) => {
            let path = match serialize_direct_path_message(&u.path) {
                Ok(v) => v,
                Err(_) => {
                    return None;
                },
            };
            out.push(2u8);
            push_all(&mut out, &path);
            proof {
                assert(out@ =~= enc_op(op_model(*op)));
            }
        },
        GroupOperation::Remove(rm) => {
            let path = match serialize_direct_path_message(&rm.path) {
                Ok(v) => v,
                Err(_) => {
                    return None;
                },
            };
            out.push(3u8);
            push_u32(&mut out, rm.removed as usize);
            push_all(&mut out, &path);
            proof {
                assert(out@ =~= enc_op(op_model(*op)));
            }
        },
    }
    Some(out)
}

/// Writes a handshake: prior epoch, operation, signer index, signature and
/// confirmation. Fails when a part does not fit its length prefix or the
/// confirmation is empty.
pub fn serialize_handshake(h: &Handshake) -> (r: Result<Vec<u8>, Error>)
    ensures
        handshake_fits(handshake_model(*h)) ==> (r matches Ok(v) && v@ == enc_handshake(
            handshake_model(*h),
        )),
        !handshake_fits(handshake_model(*h)) ==> r matches Err(Error::SerializationError),
{
    let op = match serialize_op(&h.operation) {
        Some(v) => v,
        None => {
            return Err(Error::SerializationError);
        },
    };
    if h.signature.bytes.len() >= 0x1_0000 || h.confirmation.len() == 0 || h.confirmation.len()
        >= 0x100 {
        return Err(Error::SerializationError);
    }
    let mut out: Vec<u8> = Vec::new();
    push_u32(&mut out, h.prior_epoch as usize);
    push_all(&mut out, &op);
    push_u32(&mut out, h.signer_index as usize);
    push_opaque16(&mut out, &h.signature.bytes);
    push_opaque8(&mut out, &h.confirmation);
    proof {
        assert(out@ =~= enc_handshake(handshake_model(*h)));
    }
    Ok(out)
}

fn parse_opaque8_at(b: &Vec<u8>, pos: usize, end: usize) -> (r: Option<(Vec<u8>, usize)>)
    requires
        pos <= end <= b@.len(),
    ensures
        match parse_opaque8(b@.subrange(pos as int, end as int)) {
            Some((x, c)) => r matches Some((v, c2)) && v@ == x && c2 == c,
            None => r is None,
        },
{
    let ghost s = b@.subrange(pos as int, end as int);
    if end - pos < 1 {
        return None;
    }
    let len = b[pos] as usize;
    proof {
        assert(s[0] == b@[pos as int]);
    }
    if end - pos - 1 < len {
        return None;
    }
    let v = copy_range(b, pos + 1, pos + 1 + len);
    proof {
        assert(v@ =~= s.subrange(1, 1 + len as int));
    }
    Some((v, 1 + len))
}

fn parse_u16s(b: &Vec<u8>) -> (r: Option<Vec<u16>>)
    ensures
        match parse_list(parse_u16_fn(), b@) {
            Some(xs) => r matches Some(v) && v@ == xs,
            None => r is None,
        },
{
    let end = b.len();
    let mut items: Vec<u16> = Vec::new();
    let mut pos: usize = 0;
    proof {
        assert(b@.subrange(0, end as int) =~= b@);
    }
    while pos < end
        invariant
            pos <= end,
            end == b@.len(),
            parse_list(parse_u16_fn(), b@) == match parse_list(
                parse_u16_fn(),
                b@.subrange(pos as int, end as int),
            ) {
                Some(rest) => Some(items@ + rest),
                None => None,
            },
        decreases end - pos,
    {
        let ghost s = b@.subrange(pos as int, end as int);
        if end - pos < 2 {
            return None;
        }
        let v = ((b[pos] as usize) * 256 + (b[pos + 1] as usize)) as u16;
        proof {
            assert(s[0] == b@[pos as int] && s[1] == b@[pos + 1]);
            assert(v == read16(s) as u16);
            assert(s.subrange(2, s.len() as int) =~= b@.subrange(pos + 2, end as int));
            match parse_list(parse_u16_fn(), b@.subrange(pos + 2, end as int)) {
                Some(rest) => {
                    assert(items@ + (seq![v] + rest) =~= items@.push(v) + rest);
                },
                None => {},
            }
        }
        items.push(v);
        pos = pos + 2;
    }
    proof {
        assert(b@.subrange(pos as int, end as int) =~= Seq::<u8>::empty());
        assert(items@ + Seq::<u16>::empty() =~= items@);
    }
    Some(items)
}

fn parse_keys(b: &Vec<u8>) -> (r: Option<Vec<DhPublicKey>>)
    ensures
        match parse_list(parse_opaque16_fn(), b@) {
            Some(xs) => r matches Some(v) && v@.map_values(|k: DhPublicKey| k.bytes@) == xs,
            None => r is None,
        },
{
    let end = b.len();
    let mut items: Vec<DhPublicKey> = Vec::new();
    let mut pos: usize = 0;
    proof {
        assert(b@.subrange(0, end as int) =~= b@);
    }
    while pos < end
        invariant
            pos <= end,
            end == b@.len(),
            parse_list(parse_opaque16_fn(), b@) == match parse_list(
                parse_opaque16_fn(),
                b@.subrange(pos as int, end as int),
            ) {
                Some(rest) => Some(items@.map_values(|k: DhPublicKey| k.bytes@) + rest),
                None => None,
            },
        decreases end - pos,
    {
        let ghost s = b@.subrange(pos as int, end as int);
        match parse_opaque16_at(b, pos, end) {
            Some((key, c)) => {
                if c == 0 || c > end - pos {
                    return None;
                }
                let item = DhPublicKey { bytes: key };
                proof {
                    assert(s.subrange(c as int, s.len() as int) =~= b@.subrange(pos + c, end as int));
                    let old_models = items@.map_values(|k: DhPublicKey| k.bytes@);
                    assert(old_models.push(item.bytes@) =~= items@.push(item).map_values(
                        |k: DhPublicKey| k.bytes@,
                    ));
                    match parse_list(parse_opaque16_fn(), b@.subrange(pos + c, end as int)) {
                        Some(rest) => {
                            assert(old_models + (seq![item.bytes@] + rest) =~= old_models.push(
                                item.bytes@,
                            ) + rest);
                        },
                        None => {},
                    }
                }
                items.push(item);
                pos = pos + c;
            },
            None => {
                return None;
            },
        }
    }
    proof {
        assert(b@.subrange(pos as int, end as int) =~= Seq::<u8>::empty());
        let models = items@.map_values(|k: DhPublicKey| k.bytes@);
        assert(models + Seq::<Seq<u8>>::empty() =~= models);
    }
    Some(items)
}

fn parse_uik_at(b: &Vec<u8>, pos: usize, end: usize) -> (r: Option<(UserInitKey, usize)>)
    requires
        pos <= end <= b@.len(),
    ensures
        match parse_uik(b@.subrange(pos as int, end as int)) {
            Some((x, c)) => r matches Some((v, c2)) && uik_model(v) == x && c2 == c,
            None => r is None,
        },
{
    reveal(parse_uik);
    let ghost s = b@.subrange(pos as int, end as int);
    let (id, c1) = match parse_opaque8_at(b, pos, end) {
        Some(x) => x,
        None => {
            return None;
        },
    };
    proof {
        assert(after(s, c1 as nat) =~= b@.subrange(pos + c1, end as int));
    }
    let at_versions = pos + c1;
    let (versions, c2) = match parse_opaque8_at(b, at_versions, end) {
        Some(x) => x,
        None => {
            return None;
        },
    };
    proof {
        assert(after(s, (c1 + c2) as nat) =~= b@.subrange(at_versions + c2, end as int));
    }
    let at_suites = at_versions + c2;
    let (suite_bytes, c3) = match parse_opaque8_at(b, at_suites, end) {
        Some(x) => x,
        None => {
            return None;
        },
    };
    let suites = match parse_u16s(&suite_bytes) {
        Some(x) => x,
        None => {
            return None;
        },
    };
    proof {
        assert(after(s, (c1 + c2 + c3) as nat) =~= b@.subrange(at_suites + c3, end as int));
    }
    let at_keys = at_suites + c3;
    let (key_bytes, c4) = match parse_opaque16_at(b, at_keys, end) {
        Some(x) => x,
        None => {
            return None;
        },
    };
    let init_keys = match parse_keys(&key_bytes) {
        Some(x) => x,
        None => {
            return None;
        },
    };
    if init_keys.len() == 0 {
        return None;
    }
    proof {
        assert(after(s, (c1 + c2 + c3 + c4) as nat) =~= b@.subrange(at_keys + c4, end as int));
    }
    let at_credential = at_keys + c4;
    let (credential, c5) = match parse_opaque16_at(b, at_credential, end) {
        Some(x) => x,
        None => {
            return None;
        },
    };
    proof {
        assert(after(s, (c1 + c2 + c3 + c4 + c5) as nat) =~= b@.subrange(at_credential + c5, end as int));
    }
    let at_signature = at_credential + c5;
    let (signature, c6) = match parse_opaque16_at(b, at_signature, end) {
        Some(x) => x,
        None => {
            return None;
        },
    };
    let u = UserInitKey {
        user_init_key_id: id,
        supported_versions: versions,
        cipher_suites: suites,
        init_keys,
        credential,
        signature: Signature { bytes: signature },
    };
    Some((u, at_signature + c6 - pos))
}

fn parse_dp_prefix_at(b: &Vec<u8>, pos: usize, end: usize) -> (r: Option<(DirectPathMessage, usize)>)
    requires
        pos <= end <= b@.len(),
    ensures
        match parse_dp_prefix(b@.subrange(pos as int, end as int)) {
            Some((x, c)) => r matches Some((v, c2)) && dp_model(v) == x && c2 == c,
            None => r is None,
        },
{
    match parse_opaque16_at(b, pos, end) {
        None => None,
        Some((body, c)) => match parse_nms(&body) {
            None => None,
            Some(node_messages) => {
                let m = DirectPathMessage { node_messages };
                proof {
                    assert(dp_model(m) =~= node_messages@.map_values(
                        |x: crate::handshake::DirectPathNodeMessage| crate::codec::nm_model(x),
                    ));
                }
                Some((m, c))
            },
        },
    }
}

fn read_u32_at(b: &Vec<u8>, pos: usize) -> (v: u32)
    requires
        pos + 4 <= b@.len(),
    ensures
        v == read32(b@.subrange(pos as int, b@.len() as int)) as u32,
{
    let ghost s = b@.subrange(pos as int, b@.len() as int);
    let len = b.len();
    proof {
        assert(pos + 4 <= len);
        assert(s[0] == b@[pos as int] && s[1] == b@[pos + 1] && s[2] == b@[pos + 2] && s[3]
            == b@[pos + 3]);
    }
    ((b[pos] as u32) * 0x100_0000 + (b[pos + 1] as u32) * 0x1_0000 + (b[pos + 2] as u32) * 256 + (
    b[pos + 3] as u32))
}

fn parse_op_at(b: &Vec<u8>, pos: usize, end: usize) -> (r: Option<(GroupOperation, usize)>)
    requires
        pos <= end <= b@.len(),
    ensures
        match parse_op(b@.subrange(pos as int, end as int)) {
            Some((x, c)) => r matches Some((v, c2)) && op_model(v) == x && c2 == c,
            None => r is None,
        },
{
    let ghost s = b@.subrange(pos as int, end as int);
    if pos == end {
        return None;
    }
    let tag = b[pos];
    if tag == 0 {
        Some((GroupOperation::Init(GroupInit {}), 1))
    } else if tag == 2 {
        proof {
            assert(after(s, 1) =~= b@.subrange(pos + 1, end as int));
        }
        match parse_dp_prefix_at(b, pos + 1, end) {
            None => None,
            Some((path, c)) => Some((GroupOperation::Update(GroupUpdate { path }), 1 + c)),
        }
    } else if tag == 1 || tag == 3 {
        if end - pos < 5 {
            return None;
        }
        let index = read_u32_at(b, pos + 1);
        proof {
            let t = b@.subrange(pos + 1, b@.len() as int);
            assert(after(s, 1)[0] == t[0] && after(s, 1)[1] == t[1] && after(s, 1)[2] == t[2]
                && after(s, 1)[3] == t[3]);
            assert(read32(after(s, 1)) == read32(t));
            assert(after(s, 5) =~= b@.subrange(pos + 5, end as int));
        }
        if tag == 3 {
            match parse_dp_prefix_at(b, pos + 5, end) {
                None => None,
                Some((path, c)) => Some(
                    (GroupOperation::Remove(GroupRemove { removed: index, path }), 5 + c),
                ),
            }
        } else {
            match parse_uik_at(b, pos + 5, end) {
                None => None,
                Some((init_key, c)) => {
                    proof {
                        law_user_init_key_bytes_round_trip(b@.subrange(pos + 5, end as int));
                        assert(after(s, (5 + c) as nat) =~= b@.subrange(pos + 5 + c, end as int));
                    }
                    match parse_opaque8_at(b, pos + 5 + c, end) {
                        None => None,
                        Some((welcome_info_hash, d)) => Some(
                            (
                                GroupOperation::Add(
                                    GroupAdd { index, init_key, welcome_info_hash },
                                ),
                                5 + c + d,
                            ),
                        ),
                    }
                },
            }
        }
    } else {
        None
    }
}

/// Reads a handshake from all of `bytes`. Fails when the bytes are not exactly
/// one encoded handshake, or its confirmation is empty.
pub fn deserialize_handshake(bytes: &Vec<u8>) -> (r: Result<Handshake, Error>)
    ensures
        parse_handshake(bytes@) matches Some(h) ==> (r matches Ok(x) && handshake_model(x) == h),
        parse_handshake(bytes@) is None ==> r matches Err(Error::SerializationError),
{
    let ghost b = bytes@;
    let end = bytes.len();
    if end < 4 {
        return Err(Error::SerializationError);
    }
    let prior_epoch = read_u32_at(bytes, 0);
    proof {
        assert(b.subrange(0, end as int) =~= b);
        assert(after(b, 4) =~= b.subrange(4, end as int));
    }
    let (operation, c) = match parse_op_at(bytes, 4, end) {
        Some(x) => x,
        None => {
            return Err(Error::SerializationError);
        },
    };
    proof {
        lemma_op_bytes(b.subrange(4, end as int));
        assert(after(b, (4 + c) as nat) =~= b.subrange(4 + c, end as int));
    }
    if end - 4 - c < 4 {
        return Err(Error::SerializationError);
    }
    let signer_index = read_u32_at(bytes, 4 + c);
    proof {
        assert(after(b, (8 + c) as nat) =~= b.subrange(8 + c, end as int));
    }
    let (signature, d) = match parse_opaque16_at(bytes, 8 + c, end) {
        Some(x) => x,
        None => {
            return Err(Error::SerializationError);
        },
    };
    proof {
        assert(after(b, (8 + c + d) as nat) =~= b.subrange(8 + c + d, end as int));
    }
    let (confirmation, e) = match parse_opaque8_at(bytes, 8 + c + d, end) {
        Some(x) => x,
        None => {
            return Err(Error::SerializationError);
        },
    };
    if 8 + c + d + e != end || confirmation.len() == 0 {
        return Err(Error::SerializationError);
    }
    let h = Handshake {
        prior_epoch,
        operation,
        signer_index,
        signature: Signature { bytes: signature },
        confirmation,
    };
    Ok(h)
}

} // verus!
