//! The ratchet tree of a continuous group key agreement: index arithmetic of
//! left-balanced trees, the tree of Diffie-Hellman nodes with its resolution,
//! direct-path encryption and decryption, path-secret propagation, handshake
//! assembly, and the wire format of trees, direct-path messages and handshakes.
pub mod codec;
pub mod crypto;
pub mod handshake;
pub mod message_codec;
pub mod ratchet_tree;
pub mod tree_math;
