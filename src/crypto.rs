//! Key material, the cipher-suite capability, and the keyed hash functions
//! (HMAC-SHA256, HKDF-SHA256) that the tree and the handshake use.
use vstd::prelude::*;

verus! {

/// Errors of the library.
#[derive(Debug)]
pub enum Error {
    /// A structural precondition of the tree does not hold.
    TreeError(&'static str),
    /// Public-key encryption or decryption failed.
    EncryptionError,
    /// Bytes could not be read as a message.
    SerializationError,
    /// A signature could not be made or checked.
    SignatureError,
    /// A message authentication code did not match.
    MacError,
}

/// A Diffie-Hellman public key, as its canonical encoding.
#[derive(Debug)]
pub struct DhPublicKey {
    pub bytes: Vec<u8>,
}

/// A Diffie-Hellman private key, as its canonical encoding.
#[derive(Debug)]
pub struct DhPrivateKey {
    pub bytes: Vec<u8>,
}

/// An ECIES ciphertext: the sender's ephemeral public key and the sealed payload.
#[derive(Debug)]
pub struct EciesCiphertext {
    pub ephemeral_public_key: DhPublicKey,
    pub ciphertext: Vec<u8>,
}

/// A signature, as its encoding.
#[derive(Debug)]
pub struct Signature {
    pub bytes: Vec<u8>,
}

/// A long-term signing key, as its encoding.
#[derive(Debug)]
pub struct SigSecretKey {
    pub bytes: Vec<u8>,
}

pub fn copy_bytes(v: &Vec<u8>) -> (r: Vec<u8>)
    ensures
        r@ == v@,
{
    let mut r: Vec<u8> = Vec::new();
    let mut i: usize = 0;
    while i < v.len()
        invariant
            i <= v@.len(),
            r@ == v@.subrange(0, i as int),
        decreases v@.len() - i,
    {
        r.push(v[i]);
        i = i + 1;
        proof {
            assert(r@ =~= v@.subrange(0, i as int));
        }
    }
    proof {
        assert(r@ =~= v@);
    }
    r
}

impl DhPublicKey {
    /// A copy of this key.
    pub fn duplicate(&self) -> (r: DhPublicKey)
        ensures
            r.bytes@ == self.bytes@,
    {
        DhPublicKey { bytes: copy_bytes(&self.bytes) }
    }
}

impl Signature {
    /// The encoding of this signature.
    pub fn to_bytes(&self) -> (r: Vec<u8>)
        ensures
            r@ == self.bytes@,
    {
        copy_bytes(&self.bytes)
    }
}

/// A source of randomness that public-key encryption draws from.
pub trait CryptoRng {
    fn fill_bytes(&mut self, dest: &mut Vec<u8>);
}

/// The primitives of a cipher suite whose hash is SHA-256: key derivation from a
/// seed, ECIES towards a public key, and signing.
pub trait CipherSuite {
    /// Derives the key pair whose seed is `seed`.
    fn derive_key_pair(&self, seed: &Vec<u8>) -> Result<(DhPublicKey, DhPrivateKey), Error>;

    /// Encrypts `plaintext` to `recipient`.
    fn ecies_encrypt<R: CryptoRng>(
        &self,
        recipient: &DhPublicKey,
        plaintext: &Vec<u8>,
        csprng: &mut R,
    ) -> Result<EciesCiphertext, Error>;

    /// Decrypts `ciphertext` with `key`.
    fn ecies_decrypt(&self, key: &DhPrivateKey, ciphertext: &EciesCiphertext) -> Result<
        Vec<u8>,
        Error,
    >;

    /// Signs `msg` with `key`.
    fn sign(&self, key: &SigSecretKey, msg: &Vec<u8>) -> Signature;
}

/// Output length of SHA-256, the hash of the supported cipher suites.
pub const HASH_LEN: usize = 32;

/// Largest input length that the keyed hashes accept here.
pub const MAX_HASH_INPUT: u64 = 0x0fff_ffff_ffff_ffff;

/// HMAC-SHA256 of `msg` under `key`.
pub uninterp spec fn hmac_sha256_of(key: Seq<u8>, msg: Seq<u8>) -> Seq<u8>;

/// HKDF-Expand with SHA-256 of the pseudorandom key `prk` and `info`, to 32 bytes.
pub uninterp spec fn hkdf_expand_sha256_of(prk: Seq<u8>, info: Seq<u8>) -> Seq<u8>;

/// Relies on ring::hmac::sign with HMAC_SHA256 (key made by ring::hmac::Key::new):
/// the tag is a function of key and message, as long as SHA-256's output; ring
/// panics only on inputs too long for SHA-256.
#[verifier::external_body]
pub(crate) fn hmac_sha256(key: &Vec<u8>, msg: &Vec<u8>) -> (r: Vec<u8>)
    requires
        key@.len() <= MAX_HASH_INPUT,
        msg@.len() <= MAX_HASH_INPUT,
    ensures
        r@ == hmac_sha256_of(key@, msg@),
        r@.len() == HASH_LEN,
{
    let k = ring::hmac::Key::new(ring::hmac::HMAC_SHA256, key.as_slice());
    ring::hmac::sign(&k, msg.as_slice()).as_ref().to_vec()
}

/// Relies on ring::hkdf::Prk::expand with HKDF_SHA256 (key made by
/// Prk::new_less_safe) and Okm::fill, to HKDF_SHA256's own length: the output
/// is a function of key and info; ring refuses only lengths above 255 times the
/// digest length or a buffer of another length, and panics only on inputs too
/// long for SHA-256.
#[verifier::external_body]
pub(crate) fn hkdf_expand_sha256(prk: &Vec<u8>, info: &Vec<u8>) -> (r: Vec<u8>)
    requires
        prk@.len() <= MAX_HASH_INPUT,
        info@.len() <= MAX_HASH_INPUT,
    ensures
        r@ == hkdf_expand_sha256_of(prk@, info@),
        r@.len() == HASH_LEN,
{
    let alg = ring::hkdf::HKDF_SHA256;
    let key = ring::hkdf::Prk::new_less_safe(alg, prk.as_slice());
    let parts = [info.as_slice()];
    let okm = key.expand(&parts, alg).unwrap();
    let mut out = vec![0u8; ring::hkdf::KeyType::len(&alg)];
    okm.fill(out.as_mut_slice()).unwrap();
    out
}

/// Big-endian encoding of a 16-bit value.
pub open spec fn be16(n: nat) -> Seq<u8> {
    seq![(n / 256) as u8, (n % 256) as u8]
}

/// Big-endian encoding of a 32-bit value.
pub open spec fn be32(n: nat) -> Seq<u8> {
    seq![
        (n / 0x100_0000) as u8,
        ((n / 0x1_0000) % 256) as u8,
        ((n / 256) % 256) as u8,
        (n % 256) as u8,
    ]
}

/// The prefix of every label: the text `mls10 `.
pub open spec fn label_prefix() -> Seq<u8> {
    seq![109u8, 108u8, 115u8, 49u8, 48u8, 32u8]
}

/// The text `node`.
pub open spec fn node_label() -> Seq<u8> {
    seq![110u8, 111u8, 100u8, 101u8]
}

/// The text `path`.
pub open spec fn path_label() -> Seq<u8> {
    seq![112u8, 97u8, 116u8, 104u8]
}

/// The encoded `HkdfLabel`: the output length (u16), the prefixed label with a
/// one-byte length, and the context with a four-byte length.
pub open spec fn hkdf_label(len: nat, label: Seq<u8>, context: Seq<u8>) -> Seq<u8> {
    be16(len) + seq![(label_prefix().len() + label.len()) as u8] + label_prefix() + label + be32(
        context.len(),
    ) + context
}

/// HKDF-Expand-Label over SHA-256.
pub open spec fn expand_label_of(prk: Seq<u8>, label: Seq<u8>, context: Seq<u8>) -> Seq<u8> {
    hkdf_expand_sha256_of(prk, hkdf_label(HASH_LEN as nat, label, context))
}

/// HKDF-Extract over SHA-256 with an empty salt.
pub open spec fn extract_of(secret: Seq<u8>) -> Seq<u8> {
    hmac_sha256_of(seq![], secret)
}

pub(crate) fn push_all(out: &mut Vec<u8>, s: &Vec<u8>)
    ensures
        final(out)@ == old(out)@ + s@,
{
    let mut i: usize = 0;
    while i < s.len()
        invariant
            i <= s@.len(),
            out@ == old(out)@ + s@.subrange(0, i as int),
        decreases s@.len() - i,
    {
        out.push(s[i]);
        i = i + 1;
        proof {
            assert(out@ =~= old(out)@ + s@.subrange(0, i as int));
        }
    }
    proof {
        assert(s@.subrange(0, s@.len() as int) =~= s@);
    }
}

fn prefix_bytes() -> (r: Vec<u8>)
    ensures
        r@ == label_prefix(),
{
    let r = vec![109u8, 108u8, 115u8, 49u8, 48u8, 32u8];
    proof {
        assert(r@ =~= label_prefix());
    }
    r
}

/// The label `node`.
pub fn node_label_bytes() -> (r: Vec<u8>)
    ensures
        r@ == node_label(),
{
    let r = vec![110u8, 111u8, 100u8, 101u8];
    proof {
        assert(r@ =~= node_label());
    }
    r
}

/// The label `path`.
pub fn path_label_bytes() -> (r: Vec<u8>)
    ensures
        r@ == path_label(),
{
    let r = vec![112u8, 97u8, 116u8, 104u8];
    proof {
        assert(r@ =~= path_label());
    }
    r
}

/// Encodes the `HkdfLabel` of an expansion to `len` bytes.
pub fn encode_hkdf_label(len: u16, label: &Vec<u8>, context: &Vec<u8>) -> (r: Vec<u8>)
    requires
        label@.len() <= 249,
        context@.len() <= u32::MAX,
    ensures
        r@ == hkdf_label(len as nat, label@, context@),
{
    let mut out: Vec<u8> = Vec::new();
    out.push((len / 256) as u8);
    out.push((len % 256) as u8);
    out.push((6 + label.len()) as u8);
    let p = prefix_bytes();
    push_all(&mut out, &p);
    push_all(&mut out, label);
    let c = context.len() as u32;
    out.push((c / 0x100_0000) as u8);
    out.push(((c / 0x1_0000) % 256) as u8);
    out.push(((c / 256) % 256) as u8);
    out.push((c % 256) as u8);
    push_all(&mut out, context);
    proof {
        assert(out@ =~= hkdf_label(len as nat, label@, context@));
    }
    out
}

/// HKDF-Expand-Label of `prk` to the hash length.
pub fn hkdf_expand_label(prk: &Vec<u8>, label: &Vec<u8>, context: &Vec<u8>) -> (r: Vec<u8>)
    requires
        prk@.len() <= MAX_HASH_INPUT,
        label@.len() <= 249,
        context@.len() <= u32::MAX,
    ensures
        r@ == expand_label_of(prk@, label@, context@),
        r@.len() == HASH_LEN,
{
    let info = encode_hkdf_label(HASH_LEN as u16, label, context);
    hkdf_expand_sha256(prk, &info)
}

/// HKDF-Extract of `secret` with an empty salt: HMAC-SHA256 keyed by the salt.
pub fn hkdf_extract(secret: &Vec<u8>) -> (r: Vec<u8>)
    requires
        secret@.len() <= MAX_HASH_INPUT,
    ensures
        r@ == extract_of(secret@),
        r@.len() == HASH_LEN,
{
    let salt: Vec<u8> = Vec::new();
    proof {
        assert(salt@ =~= Seq::<u8>::empty());
    }
    hmac_sha256(&salt, secret)
}

} // verus!
