//! The wire format of direct-path messages and of ratchet trees: big-endian
//! integers, byte strings and vectors prefixed by their length in bytes, and
//! variants prefixed by a one-byte tag.
use vstd::prelude::*;

use crate::crypto::{be16, be32, push_all, DhPublicKey, EciesCiphertext, Error};
use crate::handshake::{DirectPathMessage, DirectPathNodeMessage};
use crate::ratchet_tree::{RatchetTree, RatchetTreeNode};

verus! {

/// A byte string with a two-byte length.
pub open spec fn enc_opaque16(b: Seq<u8>) -> Seq<u8> {
    be16(b.len()) + b
}

/// The value of the two bytes at the start of `b`, big-endian.
pub open spec fn read16(b: Seq<u8>) -> nat {
    (b[0] as nat) * 256 + (b[1] as nat)
}

/// The value of the four bytes at the start of `b`, big-endian.
pub open spec fn read32(b: Seq<u8>) -> nat {
    (b[0] as nat) * 0x100_0000 + (b[1] as nat) * 0x1_0000 + (b[2] as nat) * 256 + (b[3] as nat)
}

/// Reads a byte string with a two-byte length: the string and the bytes used.
pub open spec fn parse_opaque16(b: Seq<u8>) -> Option<(Seq<u8>, nat)> {
    if b.len() >= 2 && 2 + read16(b) <= b.len() {
        Some((b.subrange(2, 2 + read16(b) as int), 2 + read16(b)))
    } else {
        None
    }
}

/// The encodings of the items of `xs`, one after the other.
pub open spec fn enc_list<T>(e: spec_fn(T) -> Seq<u8>, xs: Seq<T>) -> Seq<u8>
    decreases xs.len(),
{
    if xs.len() == 0 {
        seq![]
    } else {
        e(xs[0]) + enc_list(e, xs.drop_first())
    }
}

/// Reads items with `p` until `b` is used up exactly.
pub open spec fn parse_list<T>(p: spec_fn(Seq<u8>) -> Option<(T, nat)>, b: Seq<u8>) -> Option<
    Seq<T>,
>
    decreases b.len(),
{
    if b.len() == 0 {
        Some(seq![])
    } else {
        match p(b) {
            Some((x, c)) => if 0 < c <= b.len() {
                match parse_list(p, b.subrange(c as int, b.len() as int)) {
                    Some(rest) => Some(seq![x] + rest),
                    None => None,
                }
            } else {
                None
            },
            None => None,
        }
    }
}

/// `p` reads back, from any bytes that start with the encoding of `x`, `x` and
/// the length of its encoding.
pub open spec fn parses_back<T>(
    p: spec_fn(Seq<u8>) -> Option<(T, nat)>,
    e: spec_fn(T) -> Seq<u8>,
    x: T,
) -> bool {
    &&& e(x).len() > 0
    &&& forall|rest: Seq<u8>| #[trigger] p(e(x) + rest) == Some((x, e(x).len()))
}

/// Whatever `p` reads is encoded back by `e` as the bytes that `p` used.
pub open spec fn encodes_back<T>(p: spec_fn(Seq<u8>) -> Option<(T, nat)>, e: spec_fn(T) -> Seq<u8>) -> bool {
    forall|b: Seq<u8>|
        #[trigger] p(b) matches Some((x, c)) ==> 0 < c <= b.len() && e(x) == b.subrange(0, c as int)
}

pub proof fn lemma_list_parses_back<T>(
    p: spec_fn(Seq<u8>) -> Option<(T, nat)>,
    e: spec_fn(T) -> Seq<u8>,
    xs: Seq<T>,
)
    requires
        forall|k: int| 0 <= k < xs.len() ==> parses_back(p, e, #[trigger] xs[k]),
    ensures
        parse_list(p, enc_list(e, xs)) == Some(xs),
    decreases xs.len(),
{
    if xs.len() > 0 {
        let x = xs[0];
        let rest = xs.drop_first();
        assert(parses_back(p, e, xs[0]));
        assert forall|k: int| 0 <= k < rest.len() implies parses_back(p, e, #[trigger] rest[k]) by {
            assert(rest[k] == xs[k + 1]);
        }
        lemma_list_parses_back(p, e, rest);
        let b = enc_list(e, xs);
        assert(b == e(x) + enc_list(e, rest));
        assert(p(e(x) + enc_list(e, rest)) == Some((x, e(x).len())));
        assert(b.subrange(e(x).len() as int, b.len() as int) =~= enc_list(e, rest));
        assert(seq![x] + rest =~= xs);
    }
}

pub proof fn lemma_list_encodes_back<T>(
    p: spec_fn(Seq<u8>) -> Option<(T, nat)>,
    e: spec_fn(T) -> Seq<u8>,
    b: Seq<u8>,
)
    requires
        encodes_back(p, e),
        parse_list(p, b) is Some,
    ensures
        enc_list(e, parse_list(p, b)->0) == b,
    decreases b.len(),
{
    if b.len() > 0 {
        let (x, c) = p(b)->0;
        let tail = b.subrange(c as int, b.len() as int);
        lemma_list_encodes_back(p, e, tail);
        let xs = parse_list(p, b)->0;
        let rest = parse_list(p, tail)->0;
        assert(xs == seq![x] + rest);
        assert(xs.drop_first() =~= rest);
        assert(xs[0] == x);
        assert(e(x) == b.subrange(0, c as int));
        assert(b =~= b.subrange(0, c as int) + tail);
    } else {
        assert(parse_list(p, b)->0 =~= Seq::<T>::empty());
    }
}

pub proof fn lemma_be16(n: nat)
    requires
        n < 0x1_0000,
    ensures
        be16(n).len() == 2,
        read16(be16(n)) == n,
{
    assert(((n / 256) as u8) as nat == n / 256);
    assert(((n % 256) as u8) as nat == n % 256);
}

pub proof fn lemma_read16_bound(b: Seq<u8>)
    requires
        b.len() >= 2,
    ensures
        read16(b) < 0x1_0000,
        be16(read16(b)) == b.subrange(0, 2),
{
    let v = read16(b);
    assert(v / 256 == b[0] as nat);
    assert(v % 256 == b[1] as nat);
    assert(be16(v) =~= b.subrange(0, 2));
}

pub proof fn lemma_be32(n: nat)
    requires
        n < 0x1_0000_0000,
    ensures
        be32(n).len() == 4,
        read32(be32(n)) == n,
{
    let b = be32(n);
    assert(b[0] as nat == n / 0x100_0000);
    assert(b[1] as nat == (n / 0x1_0000) % 256);
    assert(b[2] as nat == (n / 256) % 256);
    assert(b[3] as nat == n % 256);
}

pub proof fn lemma_read32_bound(b: Seq<u8>)
    requires
        b.len() >= 4,
    ensures
        read32(b) < 0x1_0000_0000,
        be32(read32(b)) == b.subrange(0, 4),
{
    let v = read32(b);
    assert(v / 0x100_0000 == b[0] as nat);
    assert((v / 0x1_0000) % 256 == b[1] as nat);
    assert((v / 256) % 256 == b[2] as nat);
    assert(v % 256 == b[3] as nat);
    assert(be32(v) =~= b.subrange(0, 4));
}

pub proof fn lemma_opaque16(x: Seq<u8>, rest: Seq<u8>)
    requires
        x.len() < 0x1_0000,
    ensures
        parse_opaque16(enc_opaque16(x) + rest) == Some((x, 2 + x.len())),
        enc_opaque16(x).len() == 2 + x.len(),
{
    lemma_be16(x.len());
    let b = enc_opaque16(x) + rest;
    assert(b.subrange(0, 2) =~= be16(x.len()));
    assert(read16(b) == read16(be16(x.len())));
    assert(b.subrange(2, 2 + x.len() as int) =~= x);
}

pub proof fn lemma_opaque16_back(b: Seq<u8>)
    requires
        parse_opaque16(b) is Some,
    ensures
        parse_opaque16(b) matches Some((x, c)) ==> enc_opaque16(x) == b.subrange(0, c as int)
            && x.len() < 0x1_0000 && c == 2 + x.len(),
{
    lemma_read16_bound(b);
    let l = read16(b) as int;
    assert(b.subrange(2, 2 + l).len() == l);
    assert(enc_opaque16(b.subrange(2, 2 + l)) =~= b.subrange(0, 2 + l));
}

pub proof fn lemma_enc_list_push<T>(e: spec_fn(T) -> Seq<u8>, xs: Seq<T>, x: T)
    ensures
        enc_list(e, xs.push(x)) == enc_list(e, xs) + e(x),
    decreases xs.len(),
{
    if xs.len() == 0 {
        assert(xs.push(x).drop_first() =~= Seq::<T>::empty());
        assert(enc_list(e, Seq::<T>::empty()) == Seq::<u8>::empty());
        assert(xs.push(x)[0] == x);
        assert(enc_list(e, xs.push(x)) == e(x) + enc_list(e, xs.push(x).drop_first()));
        assert(enc_list(e, xs.push(x)) =~= enc_list(e, xs) + e(x));
    } else {
        lemma_enc_list_push(e, xs.drop_first(), x);
        assert(xs.push(x).drop_first() =~= xs.drop_first().push(x));
        assert(xs.push(x)[0] == xs[0]);
        assert(enc_list(e, xs.push(x)) == e(xs[0]) + enc_list(e, xs.drop_first().push(x)));
        assert(enc_list(e, xs) == e(xs[0]) + enc_list(e, xs.drop_first()));
        assert(enc_list(e, xs.push(x)) =~= enc_list(e, xs) + e(x));
    }
}

/// A tree node on the wire: what it says of its public key.
pub open spec fn node_model(n: RatchetTreeNode) -> Option<Seq<u8>> {
    match n {
        RatchetTreeNode::Blank => None,
        RatchetTreeNode::Filled { public_key, .. } => Some(public_key.bytes@),
    }
}

/// The node holds at most a public key: no private key and no secret.
pub open spec fn public_only(n: RatchetTreeNode) -> bool {
    match n {
        RatchetTreeNode::Blank => true,
        RatchetTreeNode::Filled { private_key, secret, .. } => private_key is None && secret is None,
    }
}

/// A tree on the wire: what its nodes say of their public keys.
pub open spec fn tree_model(t: RatchetTree) -> Seq<Option<Seq<u8>>> {
    t.nodes@.map_values(|n: RatchetTreeNode| node_model(n))
}

/// A node: the tag 0 when blank; the tag 1 and the public key when filled.
pub open spec fn enc_node(m: Option<Seq<u8>>) -> Seq<u8> {
    match m {
        None => seq![0u8],
        Some(pk) => seq![1u8] + enc_opaque16(pk),
    }
}

pub open spec fn enc_node_fn() -> spec_fn(Option<Seq<u8>>) -> Seq<u8> {
    |m: Option<Seq<u8>>| enc_node(m)
}

pub open spec fn parse_node(b: Seq<u8>) -> Option<(Option<Seq<u8>>, nat)> {
    if b.len() == 0 {
        None
    } else if b[0] == 0 {
        Some((None, 1))
    } else if b[0] == 1 {
        match parse_opaque16(b.drop_first()) {
            Some((pk, c)) => Some((Some(pk), c + 1)),
            None => None,
        }
    } else {
        None
    }
}

pub open spec fn parse_node_fn() -> spec_fn(Seq<u8>) -> Option<(Option<Seq<u8>>, nat)> {
    |b: Seq<u8>| parse_node(b)
}

/// The encoding of a tree's nodes.
pub open spec fn enc_tree_body(ms: Seq<Option<Seq<u8>>>) -> Seq<u8> {
    enc_list(enc_node_fn(), ms)
}

/// A tree: its nodes with a four-byte length.
pub open spec fn enc_tree(ms: Seq<Option<Seq<u8>>>) -> Seq<u8> {
    be32(enc_tree_body(ms).len()) + enc_tree_body(ms)
}

/// Every public key fits a two-byte length.
pub open spec fn keys_fit(ms: Seq<Option<Seq<u8>>>) -> bool {
    forall|k: int| 0 <= k < ms.len() ==> (#[trigger] ms[k] matches Some(pk) ==> pk.len() < 0x1_0000)
}

/// A tree that can be written: its keys and its length fit their prefixes.
pub open spec fn tree_encodable(ms: Seq<Option<Seq<u8>>>) -> bool {
    keys_fit(ms) && enc_tree_body(ms).len() < 0x1_0000_0000
}

/// Reads a tree from all of `b`.
pub open spec fn parse_tree(b: Seq<u8>) -> Option<Seq<Option<Seq<u8>>>> {
    if b.len() >= 4 && 4 + read32(b) == b.len() {
        parse_list(parse_node_fn(), b.subrange(4, b.len() as int))
    } else {
        None
    }
}

pub proof fn lemma_node_parses_back(m: Option<Seq<u8>>)
    requires
        m matches Some(pk) ==> pk.len() < 0x1_0000,
    ensures
        parses_back(parse_node_fn(), enc_node_fn(), m),
{
    assert forall|rest: Seq<u8>| #[trigger] parse_node_fn()(enc_node_fn()(m) + rest) == Some(
        (m, enc_node_fn()(m).len()),
    ) by {
        let b = enc_node(m) + rest;
        match m {
            None => {},
            Some(pk) => {
                lemma_opaque16(pk, rest);
                assert(b.drop_first() =~= enc_opaque16(pk) + rest);
            },
        }
    }
}

pub proof fn lemma_node_encodes_back()
    ensures
        encodes_back(parse_node_fn(), enc_node_fn()),
{
    assert forall|b: Seq<u8>|
        (#[trigger] parse_node_fn()(b) matches Some((x, c)) ==> 0 < c <= b.len() && enc_node_fn()(
            x,
        ) == b.subrange(0, c as int)) by {
        if b.len() > 0 && b[0] == 0 {
            assert(enc_node(None) =~= b.subrange(0, 1));
        } else if b.len() > 0 && b[0] == 1 && parse_opaque16(b.drop_first()) is Some {
            lemma_opaque16_back(b.drop_first());
            let (pk, c) = parse_opaque16(b.drop_first())->0;
            assert(enc_node(Some(pk)) =~= b.subrange(0, c + 1 as int));
        }
    }
}

/// Writing a tree and reading it back gives the same nodes.
pub proof fn law_tree_round_trip(ms: Seq<Option<Seq<u8>>>)
    requires
        tree_encodable(ms),
    ensures
        parse_tree(enc_tree(ms)) == Some(ms),
{
    assert forall|k: int| 0 <= k < ms.len() implies parses_back(
        parse_node_fn(),
        enc_node_fn(),
        #[trigger] ms[k],
    ) by {
        lemma_node_parses_back(ms[k]);
    }
    lemma_list_parses_back(parse_node_fn(), enc_node_fn(), ms);
    let body = enc_tree_body(ms);
    lemma_be32(body.len());
    let b = enc_tree(ms);
    assert(b.subrange(0, 4) =~= be32(body.len()));
    assert(read32(b) == read32(be32(body.len())));
    assert(b.subrange(4, b.len() as int) =~= body);
}

/// Reading a tree and writing it again gives the same bytes.
pub proof fn law_tree_bytes_round_trip(b: Seq<u8>)
    requires
        parse_tree(b) is Some,
    ensures
        tree_encodable(parse_tree(b)->0),
        enc_tree(parse_tree(b)->0) == b,
{
    let body = b.subrange(4, b.len() as int);
    lemma_node_encodes_back();
    lemma_list_encodes_back(parse_node_fn(), enc_node_fn(), body);
    lemma_read32_bound(b);
    lemma_parsed_keys_fit(body);
    assert(b =~= b.subrange(0, 4) + body);
}

pub proof fn lemma_parsed_keys_fit(b: Seq<u8>)
    requires
        parse_list(parse_node_fn(), b) is Some,
    ensures
        keys_fit(parse_list(parse_node_fn(), b)->0),
    decreases b.len(),
{
    if b.len() > 0 {
        let (x, c) = parse_node(b)->0;
        let tail = b.subrange(c as int, b.len() as int);
        lemma_parsed_keys_fit(tail);
        if b[0] == 1 {
            lemma_opaque16_back(b.drop_first());
        }
        let xs = parse_list(parse_node_fn(), b)->0;
        let rest = parse_list(parse_node_fn(), tail)->0;
        assert(xs == seq![x] + rest);
        assert forall|k: int| 0 <= k < xs.len() implies (#[trigger] xs[k] matches Some(pk)
            ==> pk.len() < 0x1_0000) by {
            if k > 0 {
                assert(xs[k] == rest[k - 1]);
            }
        }
    }
}

pub(crate) fn push_u16(out: &mut Vec<u8>, n: usize)
    requires
        n < 0x1_0000,
    ensures
        final(out)@ == old(out)@ + be16(n as nat),
{
    out.push((n / 256) as u8);
    out.push((n % 256) as u8);
    proof {
        assert(out@ =~= old(out)@ + be16(n as nat));
    }
}

pub(crate) fn push_u32(out: &mut Vec<u8>, n: usize)
    requires
        n < 0x1_0000_0000,
    ensures
        final(out)@ == old(out)@ + be32(n as nat),
{
    out.push((n / 0x100_0000) as u8);
    out.push(((n / 0x1_0000) % 256) as u8);
    out.push(((n / 256) % 256) as u8);
    out.push((n % 256) as u8);
    proof {
        assert(out@ =~= old(out)@ + be32(n as nat));
    }
}

pub(crate) fn push_opaque16(out: &mut Vec<u8>, b: &Vec<u8>)
    requires
        b@.len() < 0x1_0000,
    ensures
        final(out)@ == old(out)@ + enc_opaque16(b@),
{
    push_u16(out, b.len());
    push_all(out, b);
    proof {
        assert(out@ =~= old(out)@ + enc_opaque16(b@));
    }
}

pub(crate) fn copy_range(b: &Vec<u8>, from: usize, to: usize) -> (r: Vec<u8>)
    requires
        from <= to <= b@.len(),
    ensures
        r@ == b@.subrange(from as int, to as int),
{
    let mut r: Vec<u8> = Vec::new();
    let mut i: usize = from;
    while i < to
        invariant
            from <= i <= to,
            to <= b@.len(),
            r@ == b@.subrange(from as int, i as int),
        decreases to - i,
    {
        r.push(b[i]);
        i = i + 1;
        proof {
            assert(r@ =~= b@.subrange(from as int, i as int));
        }
    }
    r
}

/// Reads a byte string with a two-byte length from `b[pos..end]`.
pub(crate) fn parse_opaque16_at(b: &Vec<u8>, pos: usize, end: usize) -> (r: Option<(Vec<u8>, usize)>)
    requires
        pos <= end <= b@.len(),
    ensures
        match parse_opaque16(b@.subrange(pos as int, end as int)) {
            Some((x, c)) => r matches Some((v, c2)) && v@ == x && c2 == c,
            None => r is None,
        },
{
    let ghost s = b@.subrange(pos as int, end as int);
    if end - pos < 2 {
        return None;
    }
    let len = (b[pos] as usize) * 256 + (b[pos + 1] as usize);
    proof {
        assert(s[0] == b@[pos as int] && s[1] == b@[pos + 1]);
        assert(len == read16(s));
    }
    if end - pos - 2 < len {
        return None;
    }
    let v = copy_range(b, pos + 2, pos + 2 + len);
    proof {
        assert(v@ =~= s.subrange(2, 2 + len as int));
    }
    Some((v, 2 + len))
}

fn parse_node_at(b: &Vec<u8>, pos: usize, end: usize) -> (r: Option<(RatchetTreeNode, usize)>)
    requires
        pos <= end <= b@.len(),
    ensures
        match parse_node(b@.subrange(pos as int, end as int)) {
            Some((m, c)) => r matches Some((n, c2)) && node_model(n) == m && c2 == c,
            None => r is None,
        },
        r matches Some((n, _)) ==> public_only(n),
{
    let ghost s = b@.subrange(pos as int, end as int);
    if pos == end {
        return None;
    }
    let tag = b[pos];
    if tag == 0 {
        Some((RatchetTreeNode::Blank, 1))
    } else if tag == 1 {
        proof {
            assert(s.drop_first() =~= b@.subrange(pos + 1, end as int));
        }
        match parse_opaque16_at(b, pos + 1, end) {
            Some((pk, c)) => Some(
                (
                    RatchetTreeNode::Filled {
                        public_key: DhPublicKey { bytes: pk },
                        private_key: None,
                        secret: None,
                    },
                    c + 1,
                ),
            ),
            None => None,
        }
    } else {
        None
    }
}

/// Writes a tree: each node as its tag and, when filled, its public key; the
/// whole with a four-byte length. Private keys and secrets are never written.
/// Fails when a key or the whole does not fit its length prefix.
pub fn serialize_tree(tree: &RatchetTree) -> (r: Result<Vec<u8>, Error>)
    ensures
        tree_encodable(tree_model(*tree)) ==> (r matches Ok(v) && v@ == enc_tree(tree_model(*tree))),
        !tree_encodable(tree_model(*tree)) ==> r matches Err(Error::SerializationError),
{
    let ghost ms = tree_model(*tree);
    let mut body: Vec<u8> = Vec::new();
    let mut i: usize = 0;
    while i < tree.nodes.len()
        invariant
            i <= tree.nodes@.len(),
            ms == tree_model(*tree),
            body@ == enc_list(enc_node_fn(), ms.subrange(0, i as int)),
            keys_fit(ms.subrange(0, i as int)),
        decreases tree.nodes@.len() - i,
    {
        proof {
            lemma_enc_list_push(enc_node_fn(), ms.subrange(0, i as int), ms[i as int]);
            assert(ms.subrange(0, i as int).push(ms[i as int]) =~= ms.subrange(0, i + 1));
        }
        match &tree.nodes[i] {
            RatchetTreeNode::Blank => {
                body.push(0u8);
                proof {
                    assert(body@ =~= enc_list(enc_node_fn(), ms.subrange(0, i as int)) + enc_node(
                        ms[i as int],
                    ));
                }
            },
            RatchetTreeNode::Filled { public_key, .. } => {
                if public_key.bytes.len() >= 0x1_0000 {
                    proof {
                        assert(!(ms[i as int] matches Some(pk) ==> pk.len() < 0x1_0000));
                        assert(!keys_fit(ms));
                    }
                    return Err(Error::SerializationError);
                }
                body.push(1u8);
                push_opaque16(&mut body, &public_key.bytes);
                proof {
                    assert(body@ =~= enc_list(enc_node_fn(), ms.subrange(0, i as int)) + enc_node(
                        ms[i as int],
                    ));
                }
            },
        }
        i = i + 1;
        proof {
            assert forall|k: int| 0 <= k < i implies (#[trigger] ms.subrange(0, i as int)[k] matches Some(pk)
                ==> pk.len() < 0x1_0000) by {
                if k < i - 1 {
                    assert(ms.subrange(0, i as int)[k] == ms.subrange(0, i - 1)[k]);
                }
            }
        }
    }
    proof {
        assert(ms.subrange(0, i as int) =~= ms);
    }
    if body.len() as u64 >= 0x1_0000_0000u64 {
        return Err(Error::SerializationError);
    }
    let mut out: Vec<u8> = Vec::new();
    push_u32(&mut out, body.len());
    push_all(&mut out, &body);
    proof {
        assert(out@ =~= enc_tree(ms));
    }
    Ok(out)
}

/// Reads a tree from all of `bytes`; nodes come without private keys or
/// secrets. Fails when the bytes are not exactly one encoded tree.
pub fn deserialize_tree(bytes: &Vec<u8>) -> (r: Result<RatchetTree, Error>)
    ensures
        parse_tree(bytes@) matches Some(ms) ==> (r matches Ok(t) && tree_model(t) == ms),
        r matches Ok(t) ==> forall|i: int| 0 <= i < t.nodes@.len() ==> public_only(#[trigger] t.nodes@[i]),
        parse_tree(bytes@) is None ==> r matches Err(Error::SerializationError),
{
    let ghost b = bytes@;
    if bytes.len() < 4 {
        return Err(Error::SerializationError);
    }
    let len = (bytes[0] as usize) * 0x100_0000 + (bytes[1] as usize) * 0x1_0000 + (
    bytes[2] as usize) * 256 + (bytes[3] as usize);
    if bytes.len() - 4 != len {
        return Err(Error::SerializationError);
    }
    let end = bytes.len();
    let ghost whole = b.subrange(4, end as int);
    let mut nodes: Vec<RatchetTreeNode> = Vec::new();
    let mut pos: usize = 4;
    while pos < end
        invariant
            4 <= pos <= end,
            end == b.len(),
            bytes@ == b,
            whole == b.subrange(4, end as int),
            forall|i: int| 0 <= i < nodes@.len() ==> public_only(#[trigger] nodes@[i]),
            parse_list(parse_node_fn(), whole) == match parse_list(
                parse_node_fn(),
                b.subrange(pos as int, end as int),
            ) {
                Some(rest) => Some(nodes@.map_values(|n: RatchetTreeNode| node_model(n)) + rest),
                None => None,
            },
        decreases end - pos,
    {
        let ghost s = b.subrange(pos as int, end as int);
        match parse_node_at(bytes, pos, end) {
            Some((node, c)) => {
                if c == 0 || c > end - pos {
                    return Err(Error::SerializationError);
                }
                proof {
                    assert(s.subrange(c as int, s.len() as int) =~= b.subrange(pos + c, end as int));
                    let old_models = nodes@.map_values(|n: RatchetTreeNode| node_model(n));
                    assert(old_models.push(node_model(node)) =~= nodes@.push(node).map_values(
                        |n: RatchetTreeNode| node_model(n),
                    ));
                    match parse_list(parse_node_fn(), b.subrange(pos + c, end as int)) {
                        Some(rest) => {
                            assert(old_models + (seq![node_model(node)] + rest) =~= old_models.push(
                                node_model(node),
                            ) + rest);
                        },
                        None => {},
                    }
                }
                nodes.push(node);
                pos = pos + c;
            },
            None => {
                return Err(Error::SerializationError);
            },
        }
    }
    proof {
        assert(b.subrange(pos as int, end as int) =~= Seq::<u8>::empty());
        assert(nodes@.map_values(|n: RatchetTreeNode| node_model(n)) + Seq::<Option<Seq<u8>>>::empty()
            =~= nodes@.map_values(|n: RatchetTreeNode| node_model(n)));
    }
    let t = RatchetTree { nodes };
    proof {
        assert(tree_model(t) =~= nodes@.map_values(|n: RatchetTreeNode| node_model(n)));
    }
    Ok(t)
}

/// A ciphertext on the wire: the ephemeral public key and the sealed bytes.
pub open spec fn ct_model(c: EciesCiphertext) -> (Seq<u8>, Seq<u8>) {
    (c.ephemeral_public_key.bytes@, c.ciphertext@)
}

/// A node message on the wire: the public key and the ciphertexts.
pub open spec fn nm_model(m: DirectPathNodeMessage) -> (Seq<u8>, Seq<(Seq<u8>, Seq<u8>)>) {
    (m.public_key.bytes@, m.node_secrets@.map_values(|c: EciesCiphertext| ct_model(c)))
}

/// A direct-path message on the wire: its node messages.
pub open spec fn dp_model(m: DirectPathMessage) -> Seq<(Seq<u8>, Seq<(Seq<u8>, Seq<u8>)>)> {
    m.node_messages@.map_values(|x: DirectPathNodeMessage| nm_model(x))
}

/// A ciphertext: both parts with two-byte lengths.
pub open spec fn enc_ct(c: (Seq<u8>, Seq<u8>)) -> Seq<u8> {
    enc_opaque16(c.0) + enc_opaque16(c.1)
}

pub open spec fn enc_ct_fn() -> spec_fn((Seq<u8>, Seq<u8>)) -> Seq<u8> {
    |c: (Seq<u8>, Seq<u8>)| enc_ct(c)
}

pub open spec fn parse_ct(b: Seq<u8>) -> Option<((Seq<u8>, Seq<u8>), nat)> {
    match parse_opaque16(b) {
        Some((e, c1)) => match parse_opaque16(b.subrange(c1 as int, b.len() as int)) {
            Some((x, c2)) => Some(((e, x), c1 + c2)),
            None => None,
        },
        None => None,
    }
}

pub open spec fn parse_ct_fn() -> spec_fn(Seq<u8>) -> Option<((Seq<u8>, Seq<u8>), nat)> {
    |b: Seq<u8>| parse_ct(b)
}

/// A node message: the public key, then the ciphertexts with a two-byte
/// length in bytes.
pub open spec fn enc_nm(m: (Seq<u8>, Seq<(Seq<u8>, Seq<u8>)>)) -> Seq<u8> {
    enc_opaque16(m.0) + enc_opaque16(enc_list(enc_ct_fn(), m.1))
}

pub open spec fn enc_nm_fn() -> spec_fn((Seq<u8>, Seq<(Seq<u8>, Seq<u8>)>)) -> Seq<u8> {
    |m: (Seq<u8>, Seq<(Seq<u8>, Seq<u8>)>)| enc_nm(m)
}

pub open spec fn parse_nm(b: Seq<u8>) -> Option<((Seq<u8>, Seq<(Seq<u8>, Seq<u8>)>), nat)> {
    match parse_opaque16(b) {
        Some((pk, c1)) => match parse_opaque16(b.subrange(c1 as int, b.len() as int)) {
            Some((body, c2)) => match parse_list(parse_ct_fn(), body) {
                Some(cts) => Some(((pk, cts), c1 + c2)),
                None => None,
            },
            None => None,
        },
        None => None,
    }
}

pub open spec fn parse_nm_fn() -> spec_fn(Seq<u8>) -> Option<((Seq<u8>, Seq<(Seq<u8>, Seq<u8>)>), nat)> {
    |b: Seq<u8>| parse_nm(b)
}

/// A direct-path message: its node messages with a two-byte length in bytes.
pub open spec fn enc_dp(ms: Seq<(Seq<u8>, Seq<(Seq<u8>, Seq<u8>)>)>) -> Seq<u8> {
    enc_opaque16(enc_list(enc_nm_fn(), ms))
}

/// Reads a direct-path message from all of `b`.
pub open spec fn parse_dp(b: Seq<u8>) -> Option<Seq<(Seq<u8>, Seq<(Seq<u8>, Seq<u8>)>)>> {
    match parse_opaque16(b) {
        Some((body, c)) => if c == b.len() {
            parse_list(parse_nm_fn(), body)
        } else {
            None
        },
        None => None,
    }
}

pub open spec fn ct_fits(c: (Seq<u8>, Seq<u8>)) -> bool {
    c.0.len() < 0x1_0000 && c.1.len() < 0x1_0000
}

pub open spec fn nm_fits(m: (Seq<u8>, Seq<(Seq<u8>, Seq<u8>)>)) -> bool {
    &&& m.0.len() < 0x1_0000
    &&& forall|k: int| 0 <= k < m.1.len() ==> ct_fits(#[trigger] m.1[k])
    &&& enc_list(enc_ct_fn(), m.1).len() < 0x1_0000
}

/// A direct-path message that can be written: every part fits its length prefix.
pub open spec fn dp_encodable(ms: Seq<(Seq<u8>, Seq<(Seq<u8>, Seq<u8>)>)>) -> bool {
    &&& forall|k: int| 0 <= k < ms.len() ==> nm_fits(#[trigger] ms[k])
    &&& enc_list(enc_nm_fn(), ms).len() < 0x1_0000
}

pub proof fn lemma_ct_parses_back(c: (Seq<u8>, Seq<u8>))
    requires
        ct_fits(c),
    ensures
        parses_back(parse_ct_fn(), enc_ct_fn(), c),
{
    assert forall|rest: Seq<u8>| #[trigger] parse_ct_fn()(enc_ct_fn()(c) + rest) == Some(
        (c, enc_ct_fn()(c).len()),
    ) by {
        let b = enc_ct(c) + rest;
        lemma_opaque16(c.0, enc_opaque16(c.1) + rest);
        assert(b =~= enc_opaque16(c.0) + (enc_opaque16(c.1) + rest));
        lemma_opaque16(c.1, rest);
        assert(b.subrange(2 + c.0.len() as int, b.len() as int) =~= enc_opaque16(c.1) + rest);
    }
}

pub proof fn lemma_ct_encodes_back()
    ensures
        encodes_back(parse_ct_fn(), enc_ct_fn()),
{
    assert forall|b: Seq<u8>|
        (#[trigger] parse_ct_fn()(b) matches Some((x, c)) ==> 0 < c <= b.len() && enc_ct_fn()(x)
            == b.subrange(0, c as int)) by {
        if parse_ct(b) is Some {
            lemma_opaque16_back(b);
            let (e, c1) = parse_opaque16(b)->0;
            let tail = b.subrange(c1 as int, b.len() as int);
            lemma_opaque16_back(tail);
            let (x, c2) = parse_opaque16(tail)->0;
            assert(tail.subrange(0, c2 as int) =~= b.subrange(c1 as int, (c1 + c2) as int));
            assert(enc_ct((e, x)) =~= b.subrange(0, (c1 + c2) as int));
        }
    }
}

pub proof fn lemma_nm_parses_back(m: (Seq<u8>, Seq<(Seq<u8>, Seq<u8>)>))
    requires
        nm_fits(m),
    ensures
        parses_back(parse_nm_fn(), enc_nm_fn(), m),
{
    assert forall|k: int| 0 <= k < m.1.len() implies parses_back(
        parse_ct_fn(),
        enc_ct_fn(),
        #[trigger] m.1[k],
    ) by {
        lemma_ct_parses_back(m.1[k]);
    }
    lemma_list_parses_back(parse_ct_fn(), enc_ct_fn(), m.1);
    let body = enc_list(enc_ct_fn(), m.1);
    assert forall|rest: Seq<u8>| #[trigger] parse_nm_fn()(enc_nm_fn()(m) + rest) == Some(
        (m, enc_nm_fn()(m).len()),
    ) by {
        let b = enc_nm(m) + rest;
        lemma_opaque16(m.0, enc_opaque16(body) + rest);
        assert(b =~= enc_opaque16(m.0) + (enc_opaque16(body) + rest));
        lemma_opaque16(body, rest);
        assert(b.subrange(2 + m.0.len() as int, b.len() as int) =~= enc_opaque16(body) + rest);
    }
}

pub proof fn lemma_nm_encodes_back()
    ensures
        encodes_back(parse_nm_fn(), enc_nm_fn()),
{
    lemma_ct_encodes_back();
    assert forall|b: Seq<u8>|
        (#[trigger] parse_nm_fn()(b) matches Some((x, c)) ==> 0 < c <= b.len() && enc_nm_fn()(x)
            == b.subrange(0, c as int)) by {
        if parse_nm(b) is Some {
            lemma_opaque16_back(b);
            let (pk, c1) = parse_opaque16(b)->0;
            let tail = b.subrange(c1 as int, b.len() as int);
            lemma_opaque16_back(tail);
            let (body, c2) = parse_opaque16(tail)->0;
            lemma_list_encodes_back(parse_ct_fn(), enc_ct_fn(), body);
            let cts = parse_list(parse_ct_fn(), body)->0;
            assert(tail.subrange(0, c2 as int) =~= b.subrange(c1 as int, (c1 + c2) as int));
            assert(enc_nm((pk, cts)) =~= b.subrange(0, (c1 + c2) as int));
        }
    }
}

/// What a reader accepts as node messages can be written again.
pub proof fn lemma_parsed_nms_fit(b: Seq<u8>)
    requires
        parse_list(parse_nm_fn(), b) is Some,
    ensures
        forall|k: int|
            0 <= k < parse_list(parse_nm_fn(), b)->0.len() ==> nm_fits(
                #[trigger] parse_list(parse_nm_fn(), b)->0[k],
            ),
    decreases b.len(),
{
    if b.len() > 0 {
        let (x, c) = parse_nm(b)->0;
        let tail = b.subrange(c as int, b.len() as int);
        lemma_parsed_nms_fit(tail);
        lemma_nm_fits_parsed(b);
        let xs = parse_list(parse_nm_fn(), b)->0;
        let rest = parse_list(parse_nm_fn(), tail)->0;
        assert(xs == seq![x] + rest);
        assert forall|k: int| 0 <= k < xs.len() implies nm_fits(#[trigger] xs[k]) by {
            if k > 0 {
                assert(xs[k] == rest[k - 1]);
            }
        }
    }
}

/// A node message that a reader accepts fits its length prefixes.
pub proof fn lemma_nm_fits_parsed(b: Seq<u8>)
    requires
        parse_nm(b) is Some,
    ensures
        parse_nm(b) matches Some((m, c)) ==> nm_fits(m),
{
    lemma_opaque16_back(b);
    let (pk, c1) = parse_opaque16(b)->0;
    let tail = b.subrange(c1 as int, b.len() as int);
    lemma_opaque16_back(tail);
    let (body, c2) = parse_opaque16(tail)->0;
    lemma_ct_encodes_back();
    lemma_list_encodes_back(parse_ct_fn(), enc_ct_fn(), body);
    lemma_parsed_cts_fit(body);
}

/// Ciphertexts that a reader accepts fit their length prefixes.
pub proof fn lemma_parsed_cts_fit(b: Seq<u8>)
    requires
        parse_list(parse_ct_fn(), b) is Some,
    ensures
        forall|k: int|
            0 <= k < parse_list(parse_ct_fn(), b)->0.len() ==> ct_fits(
                #[trigger] parse_list(parse_ct_fn(), b)->0[k],
            ),
    decreases b.len(),
{
    if b.len() > 0 {
        let (x, c) = parse_ct(b)->0;
        let tail = b.subrange(c as int, b.len() as int);
        lemma_parsed_cts_fit(tail);
        lemma_opaque16_back(b);
        let (e, c1) = parse_opaque16(b)->0;
        lemma_opaque16_back(b.subrange(c1 as int, b.len() as int));
        let xs = parse_list(parse_ct_fn(), b)->0;
        let rest = parse_list(parse_ct_fn(), tail)->0;
        assert(xs == seq![x] + rest);
        assert forall|k: int| 0 <= k < xs.len() implies ct_fits(#[trigger] xs[k]) by {
            if k > 0 {
                assert(xs[k] == rest[k - 1]);
            }
        }
    }
}

/// Writing a direct-path message and reading it back gives the same message.
pub proof fn law_direct_path_message_round_trip(ms: Seq<(Seq<u8>, Seq<(Seq<u8>, Seq<u8>)>)>)
    requires
        dp_encodable(ms),
    ensures
        parse_dp(enc_dp(ms)) == Some(ms),
{
    assert forall|k: int| 0 <= k < ms.len() implies parses_back(
        parse_nm_fn(),
        enc_nm_fn(),
        #[trigger] ms[k],
    ) by {
        lemma_nm_parses_back(ms[k]);
    }
    lemma_list_parses_back(parse_nm_fn(), enc_nm_fn(), ms);
    let body = enc_list(enc_nm_fn(), ms);
    lemma_opaque16(body, seq![]);
    assert(enc_dp(ms) + Seq::<u8>::empty() =~= enc_dp(ms));
}

/// Reading a direct-path message and writing it again gives the same bytes.
pub proof fn law_direct_path_message_bytes_round_trip(b: Seq<u8>)
    requires
        parse_dp(b) is Some,
    ensures
        enc_dp(parse_dp(b)->0) == b,
{
    lemma_opaque16_back(b);
    let (body, c) = parse_opaque16(b)->0;
    lemma_nm_encodes_back();
    lemma_list_encodes_back(parse_nm_fn(), enc_nm_fn(), body);
    assert(b.subrange(0, c as int) =~= b);
}

fn serialize_ct(c: &EciesCiphertext) -> (r: Option<Vec<u8>>)
    ensures
        ct_fits(ct_model(*c)) ==> (r matches Some(v) && v@ == enc_ct(ct_model(*c))),
        !ct_fits(ct_model(*c)) ==> r is None,
{
    if c.ephemeral_public_key.bytes.len() >= 0x1_0000 || c.ciphertext.len() >= 0x1_0000 {
        return None;
    }
    let mut out: Vec<u8> = Vec::new();
    push_opaque16(&mut out, &c.ephemeral_public_key.bytes);
    push_opaque16(&mut out, &c.ciphertext);
    proof {
        assert(out@ =~= enc_ct(ct_model(*c)));
    }
    Some(out)
}

fn serialize_nm(m: &DirectPathNodeMessage) -> (r: Option<Vec<u8>>)
    ensures
        nm_fits(nm_model(*m)) ==> (r matches Some(v) && v@ == enc_nm(nm_model(*m))),
        !nm_fits(nm_model(*m)) ==> r is None,
{
    let ghost cts = nm_model(*m).1;
    let mut body: Vec<u8> = Vec::new();
    let mut i: usize = 0;
    while i < m.node_secrets.len()
        invariant
            i <= m.node_secrets@.len(),
            cts == nm_model(*m).1,
            body@ == enc_list(enc_ct_fn(), cts.subrange(0, i as int)),
            forall|k: int| 0 <= k < i ==> ct_fits(#[trigger] cts[k]),
        decreases m.node_secrets@.len() - i,
    {
        proof {
            lemma_enc_list_push(enc_ct_fn(), cts.subrange(0, i as int), cts[i as int]);
            assert(cts.subrange(0, i as int).push(cts[i as int]) =~= cts.subrange(0, i + 1));
        }
        match serialize_ct(&m.node_secrets[i]) {
            Some(v) => {
                push_all(&mut body, &v);
            },
            None => {
                proof {
                    assert(!ct_fits(cts[i as int]));
                }
                return None;
            },
        }
        i = i + 1;
    }
    proof {
        assert(cts.subrange(0, i as int) =~= cts);
    }
    if m.public_key.bytes.len() >= 0x1_0000 || body.len() >= 0x1_0000 {
        return None;
    }
    let mut out: Vec<u8> = Vec::new();
    push_opaque16(&mut out, &m.public_key.bytes);
    push_opaque16(&mut out, &body);
    proof {
        assert(out@ =~= enc_nm(nm_model(*m)));
    }
    Some(out)
}

/// Writes a direct-path message: its node messages, each the public key and
/// the ciphertexts, every byte string and vector with a two-byte length. Fails
/// when a part does not fit its length prefix.
pub fn serialize_direct_path_message(m: &DirectPathMessage) -> (r: Result<Vec<u8>, Error>)
    ensures
        dp_encodable(dp_model(*m)) ==> (r matches Ok(v) && v@ == enc_dp(dp_model(*m))),
        !dp_encodable(dp_model(*m)) ==> r matches Err(Error::SerializationError),
{
    let ghost ms = dp_model(*m);
    let mut body: Vec<u8> = Vec::new();
    let mut i: usize = 0;
    while i < m.node_messages.len()
        invariant
            i <= m.node_messages@.len(),
            ms == dp_model(*m),
            body@ == enc_list(enc_nm_fn(), ms.subrange(0, i as int)),
            forall|k: int| 0 <= k < i ==> nm_fits(#[trigger] ms[k]),
        decreases m.node_messages@.len() - i,
    {
        proof {
            lemma_enc_list_push(enc_nm_fn(), ms.subrange(0, i as int), ms[i as int]);
            assert(ms.subrange(0, i as int).push(ms[i as int]) =~= ms.subrange(0, i + 1));
        }
        match serialize_nm(&m.node_messages[i]) {
            Some(v) => {
                push_all(&mut body, &v);
            },
            None => {
                proof {
                    assert(!nm_fits(ms[i as int]));
                }
                return Err(Error::SerializationError);
            },
        }
        i = i + 1;
    }
    proof {
        assert(ms.subrange(0, i as int) =~= ms);
    }
    if body.len() >= 0x1_0000 {
        return Err(Error::SerializationError);
    }
    let mut out: Vec<u8> = Vec::new();
    push_opaque16(&mut out, &body);
    Ok(out)
}

fn parse_ct_at(b: &Vec<u8>, pos: usize, end: usize) -> (r: Option<(EciesCiphertext, usize)>)
    requires
        pos <= end <= b@.len(),
    ensures
        match parse_ct(b@.subrange(pos as int, end as int)) {
            Some((x, c)) => r matches Some((v, c2)) && ct_model(v) == x && c2 == c,
            None => r is None,
        },
{
    let ghost s = b@.subrange(pos as int, end as int);
    match parse_opaque16_at(b, pos, end) {
        None => None,
        Some((e, c1)) => {
            proof {
                assert(s.subrange(c1 as int, s.len() as int) =~= b@.subrange(pos + c1, end as int));
            }
            match parse_opaque16_at(b, pos + c1, end) {
                None => None,
                Some((x, c2)) => Some(
                    (
                        EciesCiphertext {
                            ephemeral_public_key: DhPublicKey { bytes: e },
                            ciphertext: x,
                        },
                        c1 + c2,
                    ),
                ),
            }
        },
    }
}

fn parse_cts(b: &Vec<u8>) -> (r: Option<Vec<EciesCiphertext>>)
    ensures
        match parse_list(parse_ct_fn(), b@) {
            Some(xs) => r matches Some(v) && v@.map_values(|c: EciesCiphertext| ct_model(c)) == xs,
            None => r is None,
        },
{
    let end = b.len();
    let mut items: Vec<EciesCiphertext> = Vec::new();
    let mut pos: usize = 0;
    proof {
        assert(b@.subrange(0, end as int) =~= b@);
    }
    while pos < end
        invariant
            pos <= end,
            end == b@.len(),
            parse_list(parse_ct_fn(), b@) == match parse_list(
                parse_ct_fn(),
                b@.subrange(pos as int, end as int),
            ) {
                Some(rest) => Some(items@.map_values(|c: EciesCiphertext| ct_model(c)) + rest),
                None => None,
            },
        decreases end - pos,
    {
        let ghost s = b@.subrange(pos as int, end as int);
        match parse_ct_at(b, pos, end) {
            Some((item, c)) => {
                if c == 0 || c > end - pos {
                    return None;
                }
                proof {
                    assert(s.subrange(c as int, s.len() as int) =~= b@.subrange(pos + c, end as int));
                    let old_models = items@.map_values(|c: EciesCiphertext| ct_model(c));
                    assert(old_models.push(ct_model(item)) =~= items@.push(item).map_values(
                        |c: EciesCiphertext| ct_model(c),
                    ));
                    match parse_list(parse_ct_fn(), b@.subrange(pos + c, end as int)) {
                        Some(rest) => {
                            assert(old_models + (seq![ct_model(item)] + rest) =~= old_models.push(
                                ct_model(item),
                            ) + rest);
                        },
                        None => {},
                    }
                }
                items.push(item);
                pos = pos + c;
            },
            None => {
                return None;
            },
        }
    }
    proof {
        assert(b@.subrange(pos as int, end as int) =~= Seq::<u8>::empty());
        let models = items@.map_values(|c: EciesCiphertext| ct_model(c));
        assert(models + Seq::<(Seq<u8>, Seq<u8>)>::empty() =~= models);
    }
    Some(items)
}

fn parse_nm_at(b: &Vec<u8>, pos: usize, end: usize) -> (r: Option<(DirectPathNodeMessage, usize)>)
    requires
        pos <= end <= b@.len(),
    ensures
        match parse_nm(b@.subrange(pos as int, end as int)) {
            Some((x, c)) => r matches Some((v, c2)) && nm_model(v) == x && c2 == c,
            None => r is None,
        },
{
    let ghost s = b@.subrange(pos as int, end as int);
    match parse_opaque16_at(b, pos, end) {
        None => None,
        Some((pk, c1)) => {
            proof {
                assert(s.subrange(c1 as int, s.len() as int) =~= b@.subrange(pos + c1, end as int));
            }
            match parse_opaque16_at(b, pos + c1, end) {
                None => None,
                Some((body, c2)) => match parse_cts(&body) {
                    None => None,
                    Some(cts) => Some(
                        (
                            DirectPathNodeMessage {
                                public_key: DhPublicKey { bytes: pk },
                                node_secrets: cts,
                            },
                            c1 + c2,
                        ),
                    ),
                },
            }
        },
    }
}

pub(crate) fn parse_nms(b: &Vec<u8>) -> (r: Option<Vec<DirectPathNodeMessage>>)
    ensures
        match parse_list(parse_nm_fn(), b@) {
            Some(xs) => r matches Some(v) && v@.map_values(|m: DirectPathNodeMessage| nm_model(m))
                == xs,
            None => r is None,
        },
{
    let end = b.len();
    let mut items: Vec<DirectPathNodeMessage> = Vec::new();
    let mut pos: usize = 0;
    proof {
        assert(b@.subrange(0, end as int) =~= b@);
    }
    while pos < end
        invariant
            pos <= end,
            end == b@.len(),
            parse_list(parse_nm_fn(), b@) == match parse_list(
                parse_nm_fn(),
                b@.subrange(pos as int, end as int),
            ) {
                Some(rest) => Some(
                    items@.map_values(|m: DirectPathNodeMessage| nm_model(m)) + rest,
                ),
                None => None,
            },
        decreases end - pos,
    {
        let ghost s = b@.subrange(pos as int, end as int);
        match parse_nm_at(b, pos, end) {
            Some((item, c)) => {
                if c == 0 || c > end - pos {
                    return None;
                }
                proof {
                    assert(s.subrange(c as int, s.len() as int) =~= b@.subrange(pos + c, end as int));
                    let old_models = items@.map_values(|m: DirectPathNodeMessage| nm_model(m));
                    assert(old_models.push(nm_model(item)) =~= items@.push(item).map_values(
                        |m: DirectPathNodeMessage| nm_model(m),
                    ));
                    match parse_list(parse_nm_fn(), b@.subrange(pos + c, end as int)) {
                        Some(rest) => {
                            assert(old_models + (seq![nm_model(item)] + rest) =~= old_models.push(
                                nm_model(item),
                            ) + rest);
                        },
                        None => {},
                    }
                }
                items.push(item);
                pos = pos + c;
            },
            None => {
                return None;
            },
        }
    }
    proof {
        assert(b@.subrange(pos as int, end as int) =~= Seq::<u8>::empty());
        let models = items@.map_values(|m: DirectPathNodeMessage| nm_model(m));
        assert(models + Seq::<(Seq<u8>, Seq<(Seq<u8>, Seq<u8>)>)>::empty() =~= models);
    }
    Some(items)
}

/// Reads a direct-path message from all of `bytes`. Fails when the bytes are
/// not exactly one encoded message.
pub fn deserialize_direct_path_message(bytes: &Vec<u8>) -> (r: Result<DirectPathMessage, Error>)
    ensures
        parse_dp(bytes@) matches Some(ms) ==> (r matches Ok(m) && dp_model(m) == ms),
        parse_dp(bytes@) is None ==> r matches Err(Error::SerializationError),
{
    proof {
        assert(bytes@.subrange(0, bytes@.len() as int) =~= bytes@);
    }
    match parse_opaque16_at(bytes, 0, bytes.len()) {
        None => Err(Error::SerializationError),
        Some((body, c)) => {
            if c != bytes.len() {
                return Err(Error::SerializationError);
            }
            match parse_nms(&body) {
                None => Err(Error::SerializationError),
                Some(node_messages) => {
                    let m = DirectPathMessage { node_messages };
                    proof {
                        assert(dp_model(m) =~= node_messages@.map_values(
                            |x: DirectPathNodeMessage| nm_model(x),
                        ));
                    }
                    Ok(m)
                },
            }
        },
    }
}

} // verus!
