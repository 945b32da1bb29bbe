//! Positions on the ring: where a key and where a virtual node of a
//! storage node fall on the circle of 64-bit numbers.
//!
//! A position is the first eight bytes of a SHA-1 digest, read as a
//! little-endian number. A key is hashed as its UTF-8 bytes; the virtual
//! node `replica` of the node `node` is hashed as the label
//! `node_<node>_rep_<replica>`, both numbers in decimal.

use sha1::{Digest, Sha1};
use vstd::bytes::{spec_u64_from_le_bytes, u64_from_le_bytes};
use vstd::prelude::*;
use vstd::slice::slice_subrange;
use vstd::utf8::encode_utf8;

verus! {

/// The number of bytes of a SHA-1 digest.
pub const DIGEST_SIZE: usize = 20;

/// The SHA-1 digest of `data`. The library computes with it and does not
/// say what it is.
pub uninterp spec fn sha1(data: Seq<u8>) -> Seq<u8>;

/// The SHA-1 digest of `data`.
///
/// Trusted: calls `Sha1::digest` of the `sha1` crate, whose result is a
/// function of the input bytes alone; the contract gives that result its
/// name. The digest has 20 bytes by its type.
#[verifier::external_body]
fn sha1_digest(data: &[u8]) -> (out: [u8; DIGEST_SIZE])
    ensures
        out@ == sha1(data@),
{
    Sha1::digest(data).into()
}

/// The position that a digest gives: its first eight bytes, least
/// significant first.
pub open spec fn leading(digest: Seq<u8>) -> u64
    recommends
        digest.len() >= 8,
{
    spec_u64_from_le_bytes(digest.subrange(0, 8))
}

/// The position of `data` on the ring.
pub open spec fn position_of(data: Seq<u8>) -> u64 {
    leading(sha1(data))
}

/// The decimal digits of `n`, as ASCII.
pub open spec fn decimal(n: nat) -> Seq<u8>
    decreases n,
{
    if n < 10 {
        seq![(0x30 + n) as u8]
    } else {
        decimal(n / 10).push((0x30 + n % 10) as u8)
    }
}

/// The label that is hashed for the virtual node `replica` of `node`.
pub open spec fn label(node: nat, replica: nat) -> Seq<u8> {
    encode_utf8("node_"@) + decimal(node) + encode_utf8("_rep_"@) + decimal(replica)
}

/// The position of the virtual node `replica` of `node`.
pub open spec fn node_position(node: nat, replica: nat) -> u64 {
    position_of(label(node, replica))
}

/// The position of a key.
pub open spec fn key_position(key: Seq<char>) -> u64 {
    position_of(encode_utf8(key))
}

/// The position that a digest gives.
pub fn position_in(digest: &[u8; DIGEST_SIZE]) -> (p: u64)
    ensures
        p == leading(digest@),
{
    u64_from_le_bytes(slice_subrange(digest.as_slice(), 0, 8))
}

/// The position of `data` on the ring.
pub fn position(data: &[u8]) -> (p: u64)
    ensures
        p == position_of(data@),
{
    let digest = sha1_digest(data);
    position_in(&digest)
}

/// Appends the decimal digits of `n`.
pub fn put_decimal(out: &mut Vec<u8>, n: usize)
    ensures
        final(out)@ == old(out)@ + decimal(n as nat),
    decreases n,
{
    let ghost before = out@;
    if n >= 10 {
        put_decimal(out, n / 10);
    }
    out.push(0x30 + (n % 10) as u8);
    assert(out@ =~= before + decimal(n as nat));
}

/// The label that is hashed for the virtual node `replica` of `node`.
pub fn node_label(node: usize, replica: usize) -> (out: Vec<u8>)
    ensures
        out@ == label(node as nat, replica as nat),
{
    let mut out: Vec<u8> = Vec::new();
    out.extend_from_slice("node_".as_bytes());
    put_decimal(&mut out, node);
    out.extend_from_slice("_rep_".as_bytes());
    put_decimal(&mut out, replica);
    assert(out@ =~= label(node as nat, replica as nat));
    out
}

/// The position of the virtual node `replica` of `node`.
pub fn virtual_position(node: usize, replica: usize) -> (p: u64)
    ensures
        p == node_position(node as nat, replica as nat),
{
    let text = node_label(node, replica);
    position(text.as_slice())
}

/// The position of a key.
pub fn position_of_key(key: &str) -> (p: u64)
    ensures
        p == key_position(key@),
{
    position(key.as_bytes())
}

} // verus!
